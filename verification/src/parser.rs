//! Recognizing one logging statement, disambiguating it, and building
//! its replacement.
//!
//! A migratable statement is a logical line that mentions one of the
//! three severity markers and carries a quoted word-shaped error
//! token whose closing quote is followed by nothing but an optional
//! closing parenthesis, stream-insertion groups, and the terminator
//! `;`.  A line that fails this shape is not a statement and passes
//! through unchanged.  The replacement assembles the resolved
//! template into the message variable, chains the arguments on in
//! order, and re-emits the severity call against the assembled
//! message, behind everything that stood before the line's marker —
//! for a well-formed statement, its leading indentation.

use vstd::prelude::*;

use crate::FCP;
use crate::mdb_parser::CodeTables;
use crate::mdb_parser::assoc_get;
use crate::mdb_parser::find_from;
use crate::mdb_parser::lemma_find_from;
use crate::mdb_parser::nonword_pred;
use crate::text::contains_seq;
use crate::text::contains_sub;
use crate::text::is_space;
use crate::text::is_word_char;
use crate::text::lines_view;
use crate::text::matches_at;
use crate::text::space_char;
use crate::text::str_to_chars;
use crate::text::subvec;
use crate::text::trim_start_spec;
use crate::text::word_char;

verus! {

/// The three severities a logging call can carry.
#[derive(Eq, PartialEq, Structural, Copy, Clone, Debug)]
pub enum Severity {
    Critical,
    Info,
    Warning,
}

/// The severity of a line, taking the markers in a fixed priority
/// order.
pub open spec fn severity_of(s: Seq<char>) -> Option<Severity> {
    if contains_seq(s, "logCritical"@) {
        Some(Severity::Critical)
    } else if contains_seq(s, "logInfo"@) {
        Some(Severity::Info)
    } else if contains_seq(s, "logWarning"@) {
        Some(Severity::Warning)
    } else {
        None
    }
}

/// Executable test for [`severity_of`].
pub fn severity_exec(line: &Vec<char>) -> (r: Option<Severity>)
    ensures
        r == severity_of(line@),
{
    let critical = str_to_chars("logCritical");
    let info = str_to_chars("logInfo");
    let warning = str_to_chars("logWarning");
    if contains_sub(line, &critical) {
        Some(Severity::Critical)
    } else if contains_sub(line, &info) {
        Some(Severity::Info)
    } else if contains_sub(line, &warning) {
        Some(Severity::Warning)
    } else {
        None
    }
}

/// The emission call appended after the assembled message.
pub open spec fn severity_call(sev: Severity) -> Seq<char> {
    match sev {
        Severity::Critical => " logCritical() << mdb_message;"@,
        Severity::Info => " logInfo() << mdb_message;"@,
        Severity::Warning => " logWarning() << mdb_message;"@,
    }
}

/// Predicate selecting everything but whitespace.
pub open spec fn nonspace_pred() -> spec_fn(char) -> bool {
    |c: char| !is_space(c)
}

/// First position at or after `from` holding a character that is not
/// whitespace.
fn find_nonspace_from(line: &Vec<char>, from: usize) -> (r: usize)
    requires
        from <= line@.len(),
    ensures
        from <= r <= line@.len(),
        r == find_from(line@, from as int, nonspace_pred()),
{
    proof {
        lemma_find_from(line@, from as int, nonspace_pred());
    }
    let n = line.len();
    let mut i: usize = from;
    while i < n && space_char(line[i])
        invariant
            from <= i <= n,
            n == line@.len(),
            forall|j: int| from <= j < i ==> !nonspace_pred()(line@[j]),
        decreases n - i,
    {
        i += 1;
    }
    proof {
        let r = find_from(line@, from as int, nonspace_pred());
        assert(i < n ==> nonspace_pred()(line@[i as int]));
        assert(r >= i) by {
            if r < i {
                assert(!nonspace_pred()(line@[r]));
            }
        }
        assert(r <= i) by {
            if r > i {
                assert(!nonspace_pred()(line@[i as int]));
            }
        }
    }
    i
}

/// One of the three severity markers begins at position `i`.
pub open spec fn is_marker_at(s: Seq<char>, i: int) -> bool {
    ||| matches_at(s, "logCritical"@, i)
    ||| matches_at(s, "logInfo"@, i)
    ||| matches_at(s, "logWarning"@, i)
}

/// Position where the last marker beginning before position `n`
/// starts, or `-1` if none does.
pub open spec fn last_marker(s: Seq<char>, n: int) -> int
    decreases n,
    when n >= 0
{
    if n <= 0 {
        -1
    } else if is_marker_at(s, n - 1) {
        n - 1
    } else {
        last_marker(s, n - 1)
    }
}

pub proof fn lemma_last_marker(s: Seq<char>, n: int)
    requires
        0 <= n,
    ensures
        -1 <= last_marker(s, n) < n,
        last_marker(s, n) >= 0 ==> is_marker_at(s, last_marker(s, n)),
        forall|j: int| last_marker(s, n) < j < n ==> !is_marker_at(s, j),
    decreases n,
{
    if n > 0 && !is_marker_at(s, n - 1) {
        lemma_last_marker(s, n - 1);
    }
}

/// A line with a severity marker has a last marker position.
proof fn lemma_severity_has_marker(s: Seq<char>)
    requires
        severity_of(s) is Some,
    ensures
        0 <= last_marker(s, s.len() as int) < s.len(),
{
    reveal_strlit("logCritical");
    reveal_strlit("logInfo");
    reveal_strlit("logWarning");
    lemma_last_marker(s, s.len() as int);
    let last = last_marker(s, s.len() as int);
    if contains_seq(s, "logCritical"@) {
        let i = choose|i: int| matches_at(s, "logCritical"@, i);
        assert(is_marker_at(s, i));
        assert(0 <= i < s.len());
        assert(last >= 0) by {
            if last == -1 {
                assert(!is_marker_at(s, i));
            }
        }
    } else if contains_seq(s, "logInfo"@) {
        let i = choose|i: int| matches_at(s, "logInfo"@, i);
        assert(is_marker_at(s, i));
        assert(0 <= i < s.len());
        assert(last >= 0) by {
            if last == -1 {
                assert(!is_marker_at(s, i));
            }
        }
    } else {
        let i = choose|i: int| matches_at(s, "logWarning"@, i);
        assert(is_marker_at(s, i));
        assert(0 <= i < s.len());
        assert(last >= 0) by {
            if last == -1 {
                assert(!is_marker_at(s, i));
            }
        }
    }
}

/// Test for a marker beginning at position `i`.
fn marker_at_exec(
    line: &Vec<char>,
    crit: &Vec<char>,
    info: &Vec<char>,
    warn: &Vec<char>,
    i: usize,
) -> (r: bool)
    requires
        crit@ == "logCritical"@,
        info@ == "logInfo"@,
        warn@ == "logWarning"@,
        i <= line@.len(),
    ensures
        r == is_marker_at(line@, i as int),
{
    let n = line.len();
    let r1 = n - i >= crit.len() && crate::text::check_match_at(line, crit, i);
    let r2 = n - i >= info.len() && crate::text::check_match_at(line, info, i);
    let r3 = n - i >= warn.len() && crate::text::check_match_at(line, warn, i);
    r1 || r2 || r3
}

/// Position where the line's last severity marker begins, if it has
/// one.
fn find_last_marker(line: &Vec<char>) -> (r: Option<usize>)
    ensures
        (match r {
            Some(p) => p as int == last_marker(line@, line@.len() as int),
            None => last_marker(line@, line@.len() as int) == -1,
        }),
{
    proof {
        lemma_last_marker(line@, line@.len() as int);
    }
    let crit = str_to_chars("logCritical");
    let info = str_to_chars("logInfo");
    let warn = str_to_chars("logWarning");
    let n = line.len();
    let mut j: usize = n;
    while j > 0
        invariant
            0 <= j <= n,
            n == line@.len(),
            crit@ == "logCritical"@,
            info@ == "logInfo"@,
            warn@ == "logWarning"@,
            forall|k: int| j <= k < n ==> !is_marker_at(line@, k),
        decreases j,
    {
        j -= 1;
        if marker_at_exec(line, &crit, &info, &warn, j) {
            proof {
                lemma_last_marker(line@, line@.len() as int);
                let last = last_marker(line@, line@.len() as int);
                assert(last >= j) by {
                    if last < j {
                        assert(!is_marker_at(line@, j as int));
                    }
                }
                assert(last <= j) by {
                    if last > j {
                        assert(!is_marker_at(line@, last));
                    }
                }
            }
            return Some(j);
        }
    }
    proof {
        let last = last_marker(line@, line@.len() as int);
        if last >= 0 {
            assert(!is_marker_at(line@, last));
        }
    }
    None
}

/// A character that ends an operand run: whitespace, the terminator,
/// or the start of another stream-insertion operator.
pub open spec fn operand_stop(s: Seq<char>, j: int) -> bool {
    is_space(s[j]) || s[j] == ';' || (j + 2 <= s.len() && s[j] == '<' && s[j + 1] == '<')
}

/// End of the operand run starting at `b`.
pub open spec fn operand_end(s: Seq<char>, b: int) -> int
    decreases s.len() - b,
    when 0 <= b <= s.len()
{
    if b == s.len() {
        b
    } else if operand_stop(s, b) {
        b
    } else {
        operand_end(s, b + 1)
    }
}

pub proof fn lemma_operand_end(s: Seq<char>, b: int)
    requires
        0 <= b <= s.len(),
    ensures
        b <= operand_end(s, b) <= s.len(),
        operand_end(s, b) < s.len() ==> operand_stop(s, operand_end(s, b)),
        forall|j: int| b <= j < operand_end(s, b) ==> !operand_stop(s, j),
    decreases s.len() - b,
{
    if b < s.len() && !operand_stop(s, b) {
        lemma_operand_end(s, b + 1);
    }
}

/// Executable search for the end of an operand run.
fn operand_end_exec(line: &Vec<char>, b: usize) -> (r: usize)
    requires
        b <= line@.len(),
    ensures
        b <= r <= line@.len(),
        r == operand_end(line@, b as int),
{
    proof {
        lemma_operand_end(line@, b as int);
    }
    let n = line.len();
    let mut j: usize = b;
    while j < n && !(space_char(line[j]) || line[j] == ';' || (n - j >= 2 && line[j] == '<'
        && line[j + 1] == '<'))
        invariant
            b <= j <= n,
            n == line@.len(),
            forall|k: int| b <= k < j ==> !operand_stop(line@, k),
        decreases n - j,
    {
        j += 1;
    }
    proof {
        let r = operand_end(line@, b as int);
        assert(j < n ==> operand_stop(line@, j as int));
        assert(r >= j) by {
            if r < j {
                assert(!operand_stop(line@, r));
            }
        }
        assert(r <= j) by {
            if r > j {
                assert(!operand_stop(line@, j as int));
            }
        }
    }
    j
}

/// From position `i` on, the rest of the statement is whitespace and
/// stream-insertion groups only, down to the terminator: each group
/// is `<<`, optional whitespace, and one nonempty operand run.
pub open spec fn chain_ok_from(s: Seq<char>, i: int) -> bool
    decreases s.len() - i,
    when 0 <= i <= s.len()
    via chain_ok_from_decreases
{
    let a = find_from(s, i, nonspace_pred());
    if a == s.len() {
        false
    } else if s[a] == ';' {
        true
    } else if a + 2 <= s.len() && s[a] == '<' && s[a + 1] == '<' {
        let b = find_from(s, a + 2, nonspace_pred());
        let e = operand_end(s, b);
        e > b && chain_ok_from(s, e)
    } else {
        false
    }
}

#[via_fn]
proof fn chain_ok_from_decreases(s: Seq<char>, i: int) {
    lemma_find_from(s, i, nonspace_pred());
    let a = find_from(s, i, nonspace_pred());
    if a < s.len() && a + 2 <= s.len() {
        lemma_find_from(s, a + 2, nonspace_pred());
        lemma_operand_end(s, find_from(s, a + 2, nonspace_pred()));
    }
}

/// The operands of the stream-insertion chain from position `i` on.
pub open spec fn chain_args_from(s: Seq<char>, i: int) -> Seq<Seq<char>>
    decreases s.len() - i,
    when 0 <= i <= s.len()
    via chain_args_from_decreases
{
    let a = find_from(s, i, nonspace_pred());
    if a == s.len() {
        Seq::empty()
    } else if s[a] == ';' {
        Seq::empty()
    } else if a + 2 <= s.len() && s[a] == '<' && s[a + 1] == '<' {
        let b = find_from(s, a + 2, nonspace_pred());
        let e = operand_end(s, b);
        if e > b {
            seq![s.subrange(b, e)] + chain_args_from(s, e)
        } else {
            Seq::empty()
        }
    } else {
        Seq::empty()
    }
}

#[via_fn]
proof fn chain_args_from_decreases(s: Seq<char>, i: int) {
    lemma_find_from(s, i, nonspace_pred());
    let a = find_from(s, i, nonspace_pred());
    if a < s.len() && a + 2 <= s.len() {
        lemma_find_from(s, a + 2, nonspace_pred());
        lemma_operand_end(s, find_from(s, a + 2, nonspace_pred()));
    }
}

/// What may follow a statement's closing quote: optionally one
/// closing parenthesis, then the stream-insertion chain down to the
/// terminator.
pub open spec fn tail_ok(s: Seq<char>, i: int) -> bool
    recommends
        0 <= i <= s.len(),
{
    let a = find_from(s, i, nonspace_pred());
    if a < s.len() && s[a] == ')' {
        chain_ok_from(s, a + 1)
    } else {
        chain_ok_from(s, i)
    }
}

/// The interpolated arguments after a statement's closing quote.
pub open spec fn tail_args(s: Seq<char>, i: int) -> Seq<Seq<char>>
    recommends
        0 <= i <= s.len(),
{
    let a = find_from(s, i, nonspace_pred());
    if a < s.len() && s[a] == ')' {
        chain_args_from(s, a + 1)
    } else {
        chain_args_from(s, i)
    }
}

/// Check the stream-insertion chain from position `i` on.
fn chain_ok_exec(line: &Vec<char>, i: usize) -> (r: bool)
    requires
        i <= line@.len(),
    ensures
        r == chain_ok_from(line@, i as int),
{
    let n = line.len();
    let mut j: usize = i;
    loop
        invariant
            i <= j <= n,
            n == line@.len(),
            chain_ok_from(line@, i as int) == chain_ok_from(line@, j as int),
        ensures
            chain_ok_from(line@, i as int) == chain_ok_from(line@, j as int),
            ({
                let a = find_from(line@, j as int, nonspace_pred());
                a == line@.len() || line@[a] == ';' || !(a + 2 <= line@.len() && line@[a] == '<'
                    && line@[a + 1] == '<') || ({
                    let b = find_from(line@, a + 2, nonspace_pred());
                    operand_end(line@, b) <= b
                })
            }),
        decreases n - j,
    {
        let a = find_nonspace_from(line, j);
        if a == n {
            break ;
        }
        if line[a] == ';' {
            break ;
        }
        if !(n - a >= 2 && line[a] == '<' && line[a + 1] == '<') {
            break ;
        }
        let b = find_nonspace_from(line, a + 2);
        let e = operand_end_exec(line, b);
        if e == b {
            break ;
        }
        j = e;
    }
    let a = find_nonspace_from(line, j);
    if a == n {
        return false;
    }
    if line[a] == ';' {
        return true;
    }
    false
}

/// Collect the operands of the stream-insertion chain from position
/// `i` on.
fn chain_args_exec(line: &Vec<char>, i: usize) -> (r: Vec<Vec<char>>)
    requires
        i <= line@.len(),
    ensures
        lines_view(r@) == chain_args_from(line@, i as int),
{
    let n = line.len();
    let mut args: Vec<Vec<char>> = Vec::new();
    let mut j: usize = i;
    proof {
        assert(lines_view(args@) + chain_args_from(line@, i as int) =~= chain_args_from(
            line@,
            i as int,
        ));
    }
    loop
        invariant
            i <= j <= n,
            n == line@.len(),
            chain_args_from(line@, i as int) == lines_view(args@) + chain_args_from(
                line@,
                j as int,
            ),
        ensures
            lines_view(args@) == chain_args_from(line@, i as int),
        decreases n - j,
    {
        let a = find_nonspace_from(line, j);
        if a == n {
            proof {
                assert(chain_args_from(line@, j as int) =~= Seq::<Seq<char>>::empty());
                assert(lines_view(args@) + chain_args_from(line@, j as int) =~= lines_view(
                    args@,
                ));
            }
            break ;
        }
        if line[a] == ';' || !(n - a >= 2 && line[a] == '<' && line[a + 1] == '<') {
            proof {
                assert(chain_args_from(line@, j as int) =~= Seq::<Seq<char>>::empty());
                assert(lines_view(args@) + chain_args_from(line@, j as int) =~= lines_view(
                    args@,
                ));
            }
            break ;
        }
        let b = find_nonspace_from(line, a + 2);
        let e = operand_end_exec(line, b);
        if e == b {
            proof {
                assert(chain_args_from(line@, j as int) =~= Seq::<Seq<char>>::empty());
                assert(lines_view(args@) + chain_args_from(line@, j as int) =~= lines_view(
                    args@,
                ));
            }
            break ;
        }
        let ghost olda = lines_view(args@);
        let arg = subvec(line, b, e);
        args.push(arg);
        proof {
            assert(lines_view(args@) =~= olda.push(line@.subrange(b as int, e as int)));
            assert(chain_args_from(line@, j as int) == seq![
                line@.subrange(b as int, e as int),
            ] + chain_args_from(line@, e as int));
            assert(olda + chain_args_from(line@, j as int) =~= lines_view(args@)
                + chain_args_from(line@, e as int));
        }
        j = e;
    }
    args
}

/// Check what follows a statement's closing quote.
fn tail_ok_exec(line: &Vec<char>, i: usize) -> (r: bool)
    requires
        i <= line@.len(),
    ensures
        r == tail_ok(line@, i as int),
{
    let n = line.len();
    let a = find_nonspace_from(line, i);
    if a < n && line[a] == ')' {
        chain_ok_exec(line, a + 1)
    } else {
        chain_ok_exec(line, i)
    }
}

/// Collect the arguments after a statement's closing quote.
fn tail_args_exec(line: &Vec<char>, i: usize) -> (r: Vec<Vec<char>>)
    requires
        i <= line@.len(),
    ensures
        lines_view(r@) == tail_args(line@, i as int),
{
    let n = line.len();
    let a = find_nonspace_from(line, i);
    if a < n && line[a] == ')' {
        chain_args_exec(line, a + 1)
    } else {
        chain_args_exec(line, i)
    }
}

/// Start of the quoted token's word run, for a candidate opening quote
/// at position `i`.
pub open spec fn tok_a(s: Seq<char>, i: int) -> int {
    find_from(s, i + 1, nonspace_pred())
}

/// End of the quoted token's word run.
pub open spec fn tok_b(s: Seq<char>, i: int) -> int {
    find_from(s, tok_a(s, i), nonword_pred())
}

/// Position of the candidate closing quote.
pub open spec fn tok_c(s: Seq<char>, i: int) -> int {
    find_from(s, tok_b(s, i), nonspace_pred())
}

/// A quoted word-run token opens at position `i`: a quote, optional
/// whitespace, at least one word-shaped character, optional whitespace,
/// and a closing quote.
pub open spec fn token_match_at(s: Seq<char>, i: int) -> bool {
    &&& 0 <= i < s.len()
    &&& s[i] == '"'
    &&& tok_a(s, i) < s.len()
    &&& is_word_char(s[tok_a(s, i)])
    &&& tok_c(s, i) < s.len()
    &&& s[tok_c(s, i)] == '"'
}

/// Test for a quoted token at position `i`, returning the word run's
/// bounds and the closing quote's position.
fn token_match_exec(line: &Vec<char>, i: usize) -> (r: Option<(usize, usize, usize)>)
    requires
        i < line@.len(),
    ensures
        match r {
            Some(t) => token_match_at(line@, i as int) && i < t.0 <= t.1 <= t.2 < line@.len()
                && t.0 == tok_a(line@, i as int) && t.1 == tok_b(line@, i as int) && t.2 == tok_c(
                line@,
                i as int,
            ),
            None => !token_match_at(line@, i as int),
        },
{
    let n = line.len();
    if line[i] != '"' {
        return None;
    }
    let a = find_nonspace_from(line, i + 1);
    if a == n {
        return None;
    }
    if !word_char(line[a]) {
        return None;
    }
    let b = crate::mdb_parser::find_nonword_from(line, a);
    let c = find_nonspace_from(line, b);
    if c == n {
        return None;
    }
    if line[c] != '"' {
        return None;
    }
    Some((a, b, c))
}

/// A whole statement body opens at position `i`: a quoted token whose
/// closing quote is followed by a well-formed tail.
pub open spec fn stmt_match_at(s: Seq<char>, i: int) -> bool {
    token_match_at(s, i) && tail_ok(s, tok_c(s, i) + 1)
}

/// Position of the first statement body of a line at or after `i`, or
/// the line length if there is none.
pub open spec fn first_stmt_from(s: Seq<char>, i: int) -> int
    decreases s.len() - i,
    when 0 <= i <= s.len()
{
    if i == s.len() {
        i
    } else if stmt_match_at(s, i) {
        i
    } else {
        first_stmt_from(s, i + 1)
    }
}

pub proof fn lemma_first_stmt_from(s: Seq<char>, i: int)
    requires
        0 <= i <= s.len(),
    ensures
        i <= first_stmt_from(s, i) <= s.len(),
        first_stmt_from(s, i) < s.len() ==> stmt_match_at(s, first_stmt_from(s, i)),
        forall|j: int| i <= j < first_stmt_from(s, i) ==> !stmt_match_at(s, j),
    decreases s.len() - i,
{
    if i < s.len() && !stmt_match_at(s, i) {
        lemma_first_stmt_from(s, i + 1);
    }
}

/// Find the first statement body of a line; the result carries the
/// opening-quote position, the word run's bounds, and the closing
/// quote's position.
fn first_stmt_exec(line: &Vec<char>) -> (r: Option<(usize, usize, usize, usize)>)
    ensures
        match r {
            Some(t) => {
                &&& t.0 == first_stmt_from(line@, 0)
                &&& stmt_match_at(line@, t.0 as int)
                &&& t.0 < t.1 <= t.2 <= t.3 < line@.len()
                &&& t.1 == tok_a(line@, t.0 as int)
                &&& t.2 == tok_b(line@, t.0 as int)
                &&& t.3 == tok_c(line@, t.0 as int)
            },
            None => first_stmt_from(line@, 0) == line@.len(),
        },
{
    proof {
        lemma_first_stmt_from(line@, 0);
    }
    let n = line.len();
    let mut i: usize = 0;
    while i < n
        invariant
            0 <= i <= n,
            n == line@.len(),
            forall|j: int| 0 <= j < i ==> !stmt_match_at(line@, j),
        decreases n - i,
    {
        match token_match_exec(line, i) {
            Some(t) => {
                if tail_ok_exec(line, t.2 + 1) {
                    proof {
                        lemma_first_stmt_from(line@, 0);
                        let f = first_stmt_from(line@, 0);
                        assert(stmt_match_at(line@, i as int));
                        assert(f >= i) by {
                            if f < i {
                                assert(!stmt_match_at(line@, f));
                            }
                        }
                        assert(f <= i) by {
                            if f > i {
                                assert(!stmt_match_at(line@, i as int));
                            }
                        }
                    }
                    return Some((i, t.0, t.1, t.2));
                }
            },
            None => {},
        }
        i += 1;
    }
    proof {
        lemma_first_stmt_from(line@, 0);
        let f = first_stmt_from(line@, 0);
        if f < line@.len() {
            assert(!stmt_match_at(line@, f));
        }
    }
    None
}

/// The parts of a recognized logging statement, at the specification
/// level.
pub struct StatementSpec {
    pub token: Seq<char>,
    pub args: Seq<Seq<char>>,
    pub prefix: Seq<char>,
    pub severity: Severity,
}

/// The parts of a recognized logging statement.
pub struct Statement {
    /// The quoted error token, quotes stripped.
    pub token: Vec<char>,
    /// The interpolated argument runs, in source order.
    pub args: Vec<Vec<char>>,
    /// Everything before the line's last severity marker, kept
    /// verbatim in the replacement; for a well-formed statement this
    /// is the leading indentation.
    pub prefix: Vec<char>,
    /// Which severity emitter the line calls.
    pub severity: Severity,
}

impl Statement {
    /// The specification-level value of this statement.
    pub open spec fn spec_view(&self) -> StatementSpec {
        StatementSpec {
            token: self.token@,
            args: lines_view(self.args@),
            prefix: self.prefix@,
            severity: self.severity,
        }
    }
}

/// What a line parses to, if it is a migratable logging statement: it
/// must carry a severity marker and a quoted word-shaped token whose
/// closing quote is followed only by an optional closing parenthesis,
/// stream-insertion groups, and the terminator; anything else passes
/// through untouched, so no text is ever lost.
pub open spec fn statement_spec(s: Seq<char>) -> Option<StatementSpec> {
    match severity_of(s) {
        None => None,
        Some(sev) => {
            let i = first_stmt_from(s, 0);
            if i == s.len() {
                None
            } else {
                Some(
                    StatementSpec {
                        token: s.subrange(tok_a(s, i), tok_b(s, i)),
                        args: tail_args(s, tok_c(s, i) + 1),
                        prefix: s.subrange(0, last_marker(s, s.len() as int)),
                        severity: sev,
                    },
                )
            }
        },
    }
}

/// Parse one logical line into a statement, or decide that it passes
/// through.
pub fn parse_statement(line: &Vec<char>) -> (r: Option<Statement>)
    ensures
        match r {
            Some(st) => statement_spec(line@) == Some(st.spec_view()),
            None => statement_spec(line@) is None,
        },
{
    let sev = match severity_exec(line) {
        None => {
            return None;
        },
        Some(sev) => sev,
    };
    let (_pos, a, b, c) = match first_stmt_exec(line) {
        None => {
            return None;
        },
        Some(t) => t,
    };
    let n = line.len();
    let token = subvec(line, a, b);
    let args = tail_args_exec(line, c + 1);
    proof {
        lemma_severity_has_marker(line@);
    }
    let pe = match find_last_marker(line) {
        Some(p) => p,
        None => {
            proof {
                assert(false);
            }
            0
        },
    };
    let prefix = subvec(line, 0, pe);
    let st = Statement { token, args, prefix, severity: sev };
    proof {
        assert(statement_spec(line@) == Some(st.spec_view()));
    }
    Some(st)
}

/// A comment line: its first non-blank characters are `//`.
pub open spec fn is_comment_line(s: Seq<char>) -> bool {
    let t = trim_start_spec(s);
    t.len() >= 2 && t[0] == '/' && t[1] == '/'
}

/// Executable test for [`is_comment_line`].
pub fn comment_line(line: &Vec<char>) -> (r: bool)
    ensures
        r == is_comment_line(line@),
{
    let n = line.len();
    let k = find_nonspace_from(line, 0);
    proof {
        lemma_find_from(line@, 0, nonspace_pred());
        crate::text::lemma_trim_start_subrange(line@, k as int);
    }
    n - k >= 2 && line[k] == '/' && line[k + 1] == '/'
}

/// The comment scan's state after some prefix of the file.
pub struct CommentScan {
    /// The current run of comment lines.
    pub run: Seq<Seq<char>>,
    /// Whether a non-comment line past the target has ended the scan.
    pub stopped: bool,
}

/// One line moves the comment scan forward.  Up to the target line,
/// comment lines extend the run and other lines reset it, except that
/// the target line itself leaves a non-empty run standing; past the
/// target, comment lines keep extending the run and the first other
/// line ends the scan.
pub open spec fn comment_step(st: CommentScan, line: Seq<char>, idx: int, target: int) -> CommentScan {
    if st.stopped {
        st
    } else if is_comment_line(line) {
        CommentScan { run: st.run.push(line), stopped: false }
    } else if idx < target {
        CommentScan { run: Seq::empty(), stopped: false }
    } else if idx == target {
        st
    } else {
        CommentScan { run: st.run, stopped: true }
    }
}

/// The comment scan's state after the first `k` lines, lines being
/// counted from one.
pub open spec fn comment_fold(lines: Seq<Seq<char>>, k: int, target: int) -> CommentScan
    decreases k,
    when 0 <= k <= lines.len()
{
    if k == 0 {
        CommentScan { run: Seq::empty(), stopped: false }
    } else {
        comment_step(comment_fold(lines, k - 1, target), lines[k - 1], k, target)
    }
}

/// The comment block straddling the target line.
pub open spec fn comment_block_spec(lines: Seq<Seq<char>>, target: int) -> Seq<Seq<char>> {
    comment_fold(lines, lines.len() as int, target).run
}

proof fn lemma_comment_fold_stopped(lines: Seq<Seq<char>>, k: int, m: int, target: int)
    requires
        0 <= k <= m <= lines.len(),
        comment_fold(lines, k, target).stopped,
    ensures
        comment_fold(lines, m, target) == comment_fold(lines, k, target),
    decreases m - k,
{
    if m > k {
        lemma_comment_fold_stopped(lines, k, m - 1, target);
    }
}

/// Collect the run of comment lines around the line numbered
/// `line_num`, counted from one.
pub fn find_comment_around_line(lines: &Vec<Vec<char>>, line_num: usize) -> (r: Vec<Vec<char>>)
    ensures
        lines_view(r@) == comment_block_spec(lines_view(lines@), line_num as int),
{
    let ghost lv = lines_view(lines@);
    let n = lines.len();
    let mut run: Vec<Vec<char>> = Vec::new();
    let mut k: usize = 0;
    proof {
        assert(lines_view(run@) =~= comment_fold(lv, 0, line_num as int).run);
    }
    while k < n
        invariant
            0 <= k <= n,
            n == lines@.len(),
            lv == lines_view(lines@),
            lines_view(run@) == comment_fold(lv, k as int, line_num as int).run,
            !comment_fold(lv, k as int, line_num as int).stopped,
        decreases n - k,
    {
        let ghost st = comment_fold(lv, k as int, line_num as int);
        let line = &lines[k];
        let idx = k + 1;
        if comment_line(line) {
            run.push(line.clone());
            proof {
                assert(run@.last()@ =~= lines@[k as int]@);
                assert(lines_view(run@) =~= st.run.push(lv[k as int]));
            }
        } else if idx < line_num {
            run = Vec::new();
            proof {
                assert(lines_view(run@) =~= Seq::<Seq<char>>::empty());
            }
        } else if idx == line_num {
            // the target line itself: the run is kept
        } else {
            proof {
                assert(comment_fold(lv, k + 1, line_num as int).run == st.run);
                assert(comment_fold(lv, k + 1, line_num as int).stopped);
                lemma_comment_fold_stopped(lv, k + 1, lv.len() as int, line_num as int);
            }
            return run;
        }
        k += 1;
    }
    run
}

/// The token occurs somewhere in the block.
pub open spec fn block_contains(block: Seq<Seq<char>>, needle: Seq<char>) -> bool {
    exists|i: int| 0 <= i < block.len() && contains_seq(#[trigger] block[i], needle)
}

/// Executable test for [`block_contains`].
pub fn block_contains_exec(block: &Vec<Vec<char>>, needle: &Vec<char>) -> (r: bool)
    ensures
        r == block_contains(lines_view(block@), needle@),
{
    let n = block.len();
    let mut i: usize = 0;
    while i < n
        invariant
            0 <= i <= n,
            n == block@.len(),
            forall|j: int| 0 <= j < i ==> !contains_seq(#[trigger] lines_view(block@)[j], needle@),
        decreases n - i,
    {
        if contains_sub(&block[i], needle) {
            proof {
                assert(contains_seq(lines_view(block@)[i as int], needle@));
            }
            return true;
        }
        i += 1;
    }
    false
}

/// An operator-declared binding from a source variable name to the
/// subsystem it logs for; a blank name means the binding is skipped
/// during matching.
pub struct Binding {
    pub name: Vec<char>,
    pub fcp: FCP,
}

/// The views of a binding list.
pub open spec fn binding_views(bs: Seq<Binding>) -> Seq<(Seq<char>, FCP)> {
    bs.map_values(|b: Binding| (b.name@, b.fcp))
}

/// The template that subsystem `f`'s table binds to `token`.
pub open spec fn table_hit(ts: CodeTables, f: FCP, token: Seq<char>) -> Option<Seq<char>> {
    match ts.spec_get(f) {
        None => None,
        Some(es) => assoc_get(es, token),
    }
}

/// How comment-based disambiguation can end, at the specification
/// level.
pub enum ResolutionSpec {
    /// The first binding named in the block whose table holds the
    /// token decides.
    Hit(FCP, Seq<char>),
    /// Bindings were named in the block, but none yielded a table hit:
    /// the line is still rewritten, around an empty template.
    Degraded,
    /// No binding is named in the block: resolution falls through to
    /// the interactive menu.
    NoBinding,
}

/// Resolve a token against the bindings named in a comment block: the
/// first named binding with a table hit wins, in declaration order.
pub open spec fn resolve_rec(
    bs: Seq<(Seq<char>, FCP)>,
    ts: CodeTables,
    block: Seq<Seq<char>>,
    token: Seq<char>,
) -> ResolutionSpec
    decreases bs.len(),
{
    if bs.len() == 0 {
        ResolutionSpec::NoBinding
    } else {
        let rest = resolve_rec(bs.drop_first(), ts, block, token);
        if bs[0].0.len() > 0 && block_contains(block, bs[0].0) {
            match table_hit(ts, bs[0].1, token) {
                Some(m) => ResolutionSpec::Hit(bs[0].1, m),
                None => match rest {
                    ResolutionSpec::Hit(f, m) => ResolutionSpec::Hit(f, m),
                    _ => ResolutionSpec::Degraded,
                },
            }
        } else {
            rest
        }
    }
}

/// The subsystems whose bindings are named in the block but miss the
/// token, before the winning binding if there is one.
pub open spec fn miss_list(
    bs: Seq<(Seq<char>, FCP)>,
    ts: CodeTables,
    block: Seq<Seq<char>>,
    token: Seq<char>,
) -> Seq<FCP>
    decreases bs.len(),
{
    if bs.len() == 0 {
        Seq::empty()
    } else {
        let rest = miss_list(bs.drop_first(), ts, block, token);
        if bs[0].0.len() > 0 && block_contains(block, bs[0].0) {
            match table_hit(ts, bs[0].1, token) {
                Some(_) => Seq::empty(),
                None => seq![bs[0].1] + rest,
            }
        } else {
            rest
        }
    }
}

/// How comment-based disambiguation ended.
pub enum Resolution {
    /// The winning subsystem and its template.
    Hit(FCP, Vec<char>),
    /// Named bindings, but no table hit anywhere.
    Degraded,
    /// No binding named in the block.
    NoBinding,
}

/// Resolve a token against a comment block.  Also returns, for the
/// log, the subsystems that were named but missed the token before the
/// decision fell.
pub fn resolve_by_comments(
    bindings: &Vec<Binding>,
    ts: &CodeTables,
    block: &Vec<Vec<char>>,
    token: &Vec<char>,
) -> (r: (Resolution, Vec<FCP>))
    ensures
        ({
            let sr = resolve_rec(binding_views(bindings@), *ts, lines_view(block@), token@);
            match r.0 {
                Resolution::Hit(f, m) => sr == ResolutionSpec::Hit(f, m@),
                Resolution::Degraded => sr is Degraded,
                Resolution::NoBinding => sr is NoBinding,
            }
        }),
        r.1@ == miss_list(binding_views(bindings@), *ts, lines_view(block@), token@),
{
    let ghost bv = binding_views(bindings@);
    let ghost blockv = lines_view(block@);
    let n = bindings.len();
    let mut res = Resolution::NoBinding;
    let mut misses: Vec<FCP> = Vec::new();
    let mut i: usize = n;
    proof {
        assert(bv.skip(n as int) =~= Seq::<(Seq<char>, FCP)>::empty());
        assert(misses@ =~= miss_list(bv.skip(n as int), *ts, blockv, token@));
    }
    while i > 0
        invariant
            0 <= i <= n,
            n == bindings@.len(),
            bv == binding_views(bindings@),
            blockv == lines_view(block@),
            ({
                let sr = resolve_rec(bv.skip(i as int), *ts, blockv, token@);
                match res {
                    Resolution::Hit(f, m) => sr == ResolutionSpec::Hit(f, m@),
                    Resolution::Degraded => sr is Degraded,
                    Resolution::NoBinding => sr is NoBinding,
                }
            }),
            misses@ == miss_list(bv.skip(i as int), *ts, blockv, token@),
        decreases i,
    {
        i -= 1;
        let ghost pre = bv.skip(i as int);
        proof {
            assert(pre.drop_first() =~= bv.skip(i + 1));
            assert(pre[0] == (bindings@[i as int].name@, bindings@[i as int].fcp));
        }
        let b = &bindings[i];
        if b.name.len() > 0 && block_contains_exec(block, &b.name) {
            match ts.lookup(b.fcp, token) {
                Some(m) => {
                    res = Resolution::Hit(b.fcp, m);
                    misses = Vec::new();
                    proof {
                        assert(misses@ =~= miss_list(pre, *ts, blockv, token@));
                    }
                },
                None => {
                    match res {
                        Resolution::Hit(_, _) => {},
                        _ => {
                            res = Resolution::Degraded;
                        },
                    }
                    misses.insert(0, b.fcp);
                    proof {
                        assert(misses@ =~= seq![bindings@[i as int].fcp] + miss_list(
                            bv.skip(i + 1),
                            *ts,
                            blockv,
                            token@,
                        ));
                    }
                },
            }
        }
    }
    proof {
        assert(bv.skip(0) =~= bv);
    }
    (res, misses)
}

/// One chained `.arg(...)` call per interpolated argument, in order.
pub open spec fn chain_args(args: Seq<Seq<char>>) -> Seq<char>
    decreases args.len(),
{
    if args.len() == 0 {
        Seq::empty()
    } else {
        chain_args(args.drop_last()) + ".arg("@ + args.last() + ")"@
    }
}

/// The replacement for a resolved statement: everything that stood
/// before the marker, the assembled message, the chained arguments,
/// the terminator, and the original severity call re-emitting the
/// assembled message.
pub open spec fn replacement_spec(st: StatementSpec, template: Seq<char>) -> Seq<char> {
    st.prefix + "mdb_message = QString("@ + template + ")"@ + chain_args(st.args) + ";"@
        + severity_call(st.severity)
}

/// Build the replacement line for a statement and its resolved
/// template.
pub fn build_replacement(st: &Statement, template: &Vec<char>) -> (r: Vec<char>)
    ensures
        r@ == replacement_spec(st.spec_view(), template@),
{
    let mut r = st.prefix.clone();
    proof {
        assert(r@ =~= st.prefix@);
    }
    crate::text::append_str(&mut r, "mdb_message = QString(");
    crate::text::append_chars(&mut r, template);
    crate::text::append_str(&mut r, ")");
    let ghost head = st.prefix@ + "mdb_message = QString("@ + template@ + ")"@;
    proof {
        assert(r@ =~= head);
        assert(lines_view(st.args@).take(0) =~= Seq::<Seq<char>>::empty());
        assert(r@ =~= head + chain_args(lines_view(st.args@).take(0)));
    }
    let n = st.args.len();
    let mut i: usize = 0;
    while i < n
        invariant
            0 <= i <= n,
            n == st.args@.len(),
            r@ == head + chain_args(lines_view(st.args@).take(i as int)),
        decreases n - i,
    {
        crate::text::append_str(&mut r, ".arg(");
        crate::text::append_chars(&mut r, &st.args[i]);
        crate::text::append_str(&mut r, ")");
        proof {
            let av = lines_view(st.args@);
            assert(av.take(i + 1).drop_last() =~= av.take(i as int));
            assert(av.take(i + 1).last() == st.args@[i as int]@);
            assert(r@ =~= head + chain_args(av.take(i + 1)));
        }
        i += 1;
    }
    proof {
        assert(lines_view(st.args@).take(n as int) =~= lines_view(st.args@));
    }
    crate::text::append_str(&mut r, ";");
    match st.severity {
        Severity::Critical => crate::text::append_str(&mut r, " logCritical() << mdb_message;"),
        Severity::Info => crate::text::append_str(&mut r, " logInfo() << mdb_message;"),
        Severity::Warning => crate::text::append_str(&mut r, " logWarning() << mdb_message;"),
    }
    proof {
        assert(r@ =~= replacement_spec(st.spec_view(), template@));
    }
    r
}

/// The comment block that may be trusted for a token: the block
/// straddling the target line, discarded unless it literally mentions
/// the token.
pub open spec fn trusted_block(lines: Seq<Seq<char>>, target: int, token: Seq<char>) -> Seq<
    Seq<char>,
> {
    let b = comment_block_spec(lines, target);
    if block_contains(b, token) {
        b
    } else {
        Seq::empty()
    }
}

/// What handling one logical line decides.
pub enum LineOutcome {
    /// Not a migratable statement: the line stays as it is.
    PassThrough,
    /// Comment-based resolution succeeded: the new line, the deciding
    /// subsystem, its template, and the subsystems logged as misses on
    /// the way.
    Rewritten { line: Vec<char>, fcp: FCP, template: Vec<char>, misses: Vec<FCP> },
    /// Bindings were named but none hit: the line is rewritten around
    /// an empty template, and every named binding is a logged miss.
    Degraded { line: Vec<char>, misses: Vec<FCP> },
    /// No binding was named: the operator must choose from the menu.
    NeedsMenu { stmt: Statement },
}

/// Handle one logical line: parse it, scan the surrounding comments,
/// and resolve it as far as no operator is needed.
pub fn parse_line(
    line: &Vec<char>,
    file_lines: &Vec<Vec<char>>,
    line_num: usize,
    bindings: &Vec<Binding>,
    ts: &CodeTables,
) -> (r: LineOutcome)
    ensures
        ({
            let sspec = statement_spec(line@);
            match r {
                LineOutcome::PassThrough => sspec is None,
                LineOutcome::Rewritten { line: l, fcp, template, misses } => {
                    &&& sspec is Some
                    &&& resolve_rec(
                        binding_views(bindings@),
                        *ts,
                        trusted_block(lines_view(file_lines@), line_num as int, sspec->0.token),
                        sspec->0.token,
                    ) == ResolutionSpec::Hit(fcp, template@)
                    &&& l@ == replacement_spec(sspec->0, template@)
                    &&& misses@ == miss_list(
                        binding_views(bindings@),
                        *ts,
                        trusted_block(lines_view(file_lines@), line_num as int, sspec->0.token),
                        sspec->0.token,
                    )
                },
                LineOutcome::Degraded { line: l, misses } => {
                    &&& sspec is Some
                    &&& resolve_rec(
                        binding_views(bindings@),
                        *ts,
                        trusted_block(lines_view(file_lines@), line_num as int, sspec->0.token),
                        sspec->0.token,
                    ) is Degraded
                    &&& l@ == replacement_spec(sspec->0, Seq::empty())
                    &&& misses@ == miss_list(
                        binding_views(bindings@),
                        *ts,
                        trusted_block(lines_view(file_lines@), line_num as int, sspec->0.token),
                        sspec->0.token,
                    )
                },
                LineOutcome::NeedsMenu { stmt } => {
                    &&& sspec == Some(stmt.spec_view())
                    &&& resolve_rec(
                        binding_views(bindings@),
                        *ts,
                        trusted_block(lines_view(file_lines@), line_num as int, sspec->0.token),
                        sspec->0.token,
                    ) is NoBinding
                },
            }
        }),
{
    let stmt = match parse_statement(line) {
        None => {
            return LineOutcome::PassThrough;
        },
        Some(stmt) => stmt,
    };
    let block_raw = find_comment_around_line(file_lines, line_num);
    let block = if block_contains_exec(&block_raw, &stmt.token) {
        block_raw
    } else {
        Vec::new()
    };
    proof {
        assert(lines_view(block@) =~= trusted_block(
            lines_view(file_lines@),
            line_num as int,
            stmt.spec_view().token,
        ));
    }
    let (res, misses) = resolve_by_comments(bindings, ts, &block, &stmt.token);
    match res {
        Resolution::Hit(fcp, template) => {
            let new_line = build_replacement(&stmt, &template);
            LineOutcome::Rewritten { line: new_line, fcp, template, misses }
        },
        Resolution::Degraded => {
            let empty: Vec<char> = Vec::new();
            let new_line = build_replacement(&stmt, &empty);
            proof {
                assert(empty@ =~= Seq::<char>::empty());
            }
            LineOutcome::Degraded { line: new_line, misses }
        },
        Resolution::NoBinding => LineOutcome::NeedsMenu { stmt },
    }
}

/// What one operator answer to the numbered menu yields.
pub enum MenuReply {
    /// Non-numeric or out-of-range input: the same query is re-armed.
    Invalid,
    /// A valid index whose subsystem's table misses the token: the
    /// miss is reported and the query re-armed.
    Miss(FCP),
    /// A valid index with a table hit: the chosen subsystem and its
    /// template.
    Chosen(FCP, Vec<char>),
}

/// Answer one round of the numbered menu: candidates are numbered from
/// one, and only a numeric index in range advances.
pub fn menu_answer(
    ts: &CodeTables,
    candidates: &Vec<FCP>,
    token: &Vec<char>,
    input: &Vec<char>,
) -> (r: MenuReply)
    ensures
        ({
            let parsed = crate::text::parse_usize_spec(crate::text::trim_spec(input@));
            match r {
                MenuReply::Invalid => parsed is None || parsed->0 < 1 || parsed->0
                    > candidates@.len(),
                MenuReply::Miss(f) => {
                    &&& parsed is Some
                    &&& 1 <= parsed->0 <= candidates@.len()
                    &&& f == candidates@[parsed->0 - 1]
                    &&& table_hit(*ts, f, token@) is None
                },
                MenuReply::Chosen(f, m) => {
                    &&& parsed is Some
                    &&& 1 <= parsed->0 <= candidates@.len()
                    &&& f == candidates@[parsed->0 - 1]
                    &&& table_hit(*ts, f, token@) == Some(m@)
                },
            }
        }),
{
    let t = crate::text::trim(input);
    let num = match crate::text::parse_usize(&t) {
        None => {
            return MenuReply::Invalid;
        },
        Some(num) => num,
    };
    if num < 1 || num > candidates.len() {
        return MenuReply::Invalid;
    }
    let f = candidates[num - 1];
    match ts.lookup(f, token) {
        None => MenuReply::Miss(f),
        Some(m) => MenuReply::Chosen(f, m),
    }
}


/// Comment-driven disambiguation is deterministic: the first binding,
/// in declaration order, whose non-blank name is written in the block
/// and whose subsystem's table holds the token decides the statement,
/// and no interactive query is raised.
pub proof fn lemma_first_hit_wins(
    bs: Seq<(Seq<char>, FCP)>,
    ts: CodeTables,
    block: Seq<Seq<char>>,
    token: Seq<char>,
    i: int,
)
    requires
        0 <= i < bs.len(),
        bs[i].0.len() > 0,
        block_contains(block, bs[i].0),
        table_hit(ts, bs[i].1, token) is Some,
        forall|j: int|
            0 <= j < i ==> !(bs[j].0.len() > 0 && block_contains(block, bs[j].0) && table_hit(
                ts,
                bs[j].1,
                token,
            ) is Some),
    ensures
        resolve_rec(bs, ts, block, token) == ResolutionSpec::Hit(
            bs[i].1,
            table_hit(ts, bs[i].1, token)->0,
        ),
    decreases i,
{
    if i == 0 {
        assert(resolve_rec(bs, ts, block, token) == ResolutionSpec::Hit(
            bs[0].1,
            table_hit(ts, bs[0].1, token)->0,
        ));
    } else {
        let rest = bs.drop_first();
        assert(rest[i - 1] == bs[i]);
        assert forall|j: int|
            0 <= j < i - 1 implies !(rest[j].0.len() > 0 && block_contains(block, rest[j].0)
            && table_hit(ts, rest[j].1, token) is Some) by {
            assert(rest[j] == bs[j + 1]);
        }
        lemma_first_hit_wins(rest, ts, block, token, i - 1);
        assert(!(bs[0].0.len() > 0 && block_contains(block, bs[0].0) && table_hit(
            ts,
            bs[0].1,
            token,
        ) is Some));
    }
}

} // verus!
