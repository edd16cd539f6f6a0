use mdb_converter::normalizer::join_log_lines;
use mdb_converter::parser::find_comment_around_line;
use mdb_converter::text::chars_to_string;
use mdb_converter::text::str_to_chars;

fn cv(s: &str) -> Vec<char> {
    str_to_chars(s)
}

fn cvs(lines: &[&str]) -> Vec<Vec<char>> {
    lines.iter().map(|l| cv(l)).collect()
}

fn svs(lines: &Vec<Vec<char>>) -> Vec<String> {
    lines.iter().map(|l| chars_to_string(l)).collect()
}

#[test]
fn join_merges_split_statement() {
    let input = cvs(&["int a;", "logInfo() << \"E1\"", "    << x", "    << y;", "done();"]);
    let (out, reports) = join_log_lines(&input);
    assert_eq!(
        svs(&out),
        vec!["int a;", "logInfo() << \"E1\" << x << y;", "done();"]
    );
    assert_eq!(reports, vec![(2usize, 4usize, 2usize)]);
}

#[test]
fn join_leaves_complete_lines_alone() {
    let input = cvs(&["logCritical() << \"A\";", "plain text", "logWarning() << \"B\";"]);
    let (out, reports) = join_log_lines(&input);
    assert_eq!(svs(&out), vec![
        "logCritical() << \"A\";",
        "plain text",
        "logWarning() << \"B\";",
    ]);
    assert_eq!(reports.len(), 0);
}

#[test]
fn join_drops_unterminated_tail() {
    let input = cvs(&["logInfo() << \"E\"", "still going"]);
    let (out, _) = join_log_lines(&input);
    assert_eq!(out.len(), 0);
}

#[test]
fn join_is_idempotent_on_concrete_input() {
    let input = cvs(&["before", "logInfo() << \"E1\"", "  << x;", "after", "logWarning() << \"W\";"]);
    let (once, _) = join_log_lines(&input);
    let (twice, reports) = join_log_lines(&once);
    assert_eq!(svs(&twice), svs(&once));
    assert_eq!(reports.len(), 0);
}

#[test]
fn comment_block_straddles_target() {
    // the comment right above the target is the whole block
    let lines = cvs(&["// FOO", "logWarning(\"FOO\") << x;"]);
    let block = find_comment_around_line(&lines, 2);
    assert_eq!(svs(&block), vec!["// FOO"]);
}

#[test]
fn comment_block_empty_with_intervening_line() {
    // a non-comment line between the comment and the target resets the run
    let lines = cvs(&["// FOO", "int x;", "logWarning(\"FOO\") << x;"]);
    let block = find_comment_around_line(&lines, 3);
    assert_eq!(block.len(), 0);
}

#[test]
fn comment_block_extends_past_target() {
    let lines = cvs(&["// A", "logInfo(\"A\") << x;", "// B", "code();", "// C"]);
    let block = find_comment_around_line(&lines, 2);
    assert_eq!(svs(&block), vec!["// A", "// B"]);
}

#[test]
fn comment_block_recognizes_indented_comments() {
    let lines = cvs(&["   // indented", "target"]);
    let block = find_comment_around_line(&lines, 2);
    assert_eq!(svs(&block), vec!["   // indented"]);
}
