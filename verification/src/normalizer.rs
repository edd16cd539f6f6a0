//! The Statement Normalizer: collapsing a logging call that spans
//! several physical lines into one logical line.
//!
//! The pass is a two-state machine over the physical lines.  While
//! collecting, a line that carries no logging-call marker, or that is
//! already terminated by `;`, passes through unchanged; a marker line
//! without the terminator starts a joining buffer.  While joining, each
//! further line is appended, trimmed and space-separated, until a line
//! ends with the terminator; the buffer then becomes one logical line.
//! A buffer still open at the end of the file is dropped.

use vstd::prelude::*;

use crate::text::contains_seq;
use crate::text::contains_sub;
use crate::text::is_space;
use crate::text::lines_view;
use crate::text::str_to_chars;
use crate::text::trim;
use crate::text::trim_end_spec;
use crate::text::trim_spec;
use crate::text::trim_start_spec;

verus! {

/// The line mentions one of the three logging-call markers.
pub open spec fn is_marker_line(s: Seq<char>) -> bool {
    ||| contains_seq(s, "logCritical"@)
    ||| contains_seq(s, "logInfo"@)
    ||| contains_seq(s, "logWarning"@)
}

/// Executable test for [`is_marker_line`].
pub fn marker_line(line: &Vec<char>) -> (r: bool)
    ensures
        r == is_marker_line(line@),
{
    let critical = str_to_chars("logCritical");
    let info = str_to_chars("logInfo");
    let warning = str_to_chars("logWarning");
    contains_sub(line, &critical) || contains_sub(line, &info) || contains_sub(line, &warning)
}

/// The line ends with the statement terminator.
pub open spec fn terminated(s: Seq<char>) -> bool {
    s.len() > 0 && s.last() == ';'
}

/// Executable test for [`terminated`].
pub fn is_terminated(line: &Vec<char>) -> (r: bool)
    ensures
        r == terminated(line@),
{
    let n = line.len();
    n > 0 && line[n - 1] == ';'
}

/// The state of the normalizer after some prefix of the physical
/// lines.
pub struct JoinState {
    /// The logical lines emitted so far.
    pub out: Seq<Seq<char>>,
    /// The buffer of a joining in progress, if one is open.
    pub pending: Option<Seq<char>>,
    /// The physical line, counted from one, where the open buffer
    /// began; meaningful only while one is open.
    pub pending_start: int,
    /// How many physical lines have been consumed.
    pub seen: int,
    /// One entry per merge: first and last physical line joined, and
    /// the logical line they became.
    pub reports: Seq<(int, int, int)>,
}

/// The state before any line.
pub open spec fn join_init() -> JoinState {
    JoinState {
        out: Seq::empty(),
        pending: None,
        pending_start: 0,
        seen: 0,
        reports: Seq::empty(),
    }
}

/// One physical line moves the normalizer forward.
pub open spec fn join_step(st: JoinState, line: Seq<char>) -> JoinState {
    match st.pending {
        Some(buf) => {
            let buf2 = buf + seq![' '] + trim_spec(line);
            if terminated(line) {
                JoinState {
                    out: st.out.push(buf2),
                    pending: None,
                    pending_start: 0,
                    seen: st.seen + 1,
                    reports: st.reports.push(
                        (st.pending_start, st.seen + 1, st.out.len() as int + 1),
                    ),
                }
            } else {
                JoinState { pending: Some(buf2), seen: st.seen + 1, ..st }
            }
        },
        None => {
            if is_marker_line(line) && !terminated(line) {
                JoinState {
                    pending: Some(line),
                    pending_start: st.seen + 1,
                    seen: st.seen + 1,
                    ..st
                }
            } else {
                JoinState { out: st.out.push(line), seen: st.seen + 1, ..st }
            }
        },
    }
}

/// The state after all the given lines.
pub open spec fn join_fold(lines: Seq<Seq<char>>) -> JoinState
    decreases lines.len(),
{
    if lines.len() == 0 {
        join_init()
    } else {
        join_step(join_fold(lines.drop_last()), lines.last())
    }
}

/// The logical lines that normalizing the given physical lines yields.
pub open spec fn join_lines_spec(lines: Seq<Seq<char>>) -> Seq<Seq<char>> {
    join_fold(lines).out
}

/// A line the normalizer can never start joining at: if it mentions a
/// marker, it is already terminated.
pub open spec fn stable_line(s: Seq<char>) -> bool {
    is_marker_line(s) ==> terminated(s)
}

proof fn lemma_trim_keeps_terminator(s: Seq<char>)
    requires
        terminated(s),
    ensures
        terminated(trim_spec(s)),
{
    lemma_trim_start_keeps_last(s);
    let t = trim_start_spec(s);
    assert(!is_space(t.last()));
    assert(trim_end_spec(t) == t);
}

proof fn lemma_trim_start_keeps_last(s: Seq<char>)
    requires
        s.len() > 0,
        !is_space(s.last()),
    ensures
        trim_start_spec(s).len() > 0,
        trim_start_spec(s).last() == s.last(),
    decreases s.len(),
{
    if is_space(s[0]) {
        assert(s.len() >= 2);
        assert(s.drop_first().last() == s.last());
        lemma_trim_start_keeps_last(s.drop_first());
    }
}

proof fn lemma_join_fold_stable(lines: Seq<Seq<char>>)
    ensures
        forall|i: int|
            0 <= i < join_fold(lines).out.len() ==> stable_line(#[trigger] join_fold(
                lines,
            ).out[i]),
    decreases lines.len(),
{
    if lines.len() > 0 {
        lemma_join_fold_stable(lines.drop_last());
        let st = join_fold(lines.drop_last());
        let line = lines.last();
        match st.pending {
            Some(buf) => {
                if terminated(line) {
                    lemma_trim_keeps_terminator(line);
                    let buf2 = buf + seq![' '] + trim_spec(line);
                    assert(buf2.last() == trim_spec(line).last());
                    assert(stable_line(buf2));
                }
            },
            None => {},
        }
    }
}

proof fn lemma_join_of_stable(lines: Seq<Seq<char>>)
    requires
        forall|i: int| 0 <= i < lines.len() ==> stable_line(#[trigger] lines[i]),
    ensures
        join_fold(lines).out == lines,
        join_fold(lines).pending is None,
    decreases lines.len(),
{
    if lines.len() > 0 {
        lemma_join_of_stable(lines.drop_last());
        assert(stable_line(lines.last()));
        assert(join_fold(lines).out =~= lines);
    }
}

/// The pass never makes more logical lines than there were physical
/// ones.
pub proof fn lemma_join_len(lines: Seq<Seq<char>>)
    ensures
        join_fold(lines).out.len() + (match join_fold(lines).pending {
            Some(_) => 1int,
            None => 0int,
        }) <= lines.len(),
    decreases lines.len(),
{
    if lines.len() > 0 {
        lemma_join_len(lines.drop_last());
    }
}

/// Normalization is idempotent: running the pass on its own output
/// changes nothing, because every logical line it emits is either
/// marker-free or already terminated.
pub proof fn lemma_join_idempotent(lines: Seq<Seq<char>>)
    ensures
        join_lines_spec(join_lines_spec(lines)) == join_lines_spec(lines),
{
    lemma_join_fold_stable(lines);
    lemma_join_of_stable(join_lines_spec(lines));
}

/// Collapse multi-line logging calls into single logical lines.  The
/// second result reports, for observability, which physical line
/// ranges were merged into which logical line, all counted from one.
pub fn join_log_lines(lines: &Vec<Vec<char>>) -> (r: (Vec<Vec<char>>, Vec<(usize, usize, usize)>))
    ensures
        lines_view(r.0@) == join_lines_spec(lines_view(lines@)),
        r.1@.map_values(|t: (usize, usize, usize)| (t.0 as int, t.1 as int, t.2 as int))
            == join_fold(lines_view(lines@)).reports,
{
    let ghost lv = lines_view(lines@);
    let n = lines.len();
    let mut out: Vec<Vec<char>> = Vec::new();
    let mut pending: Option<Vec<char>> = None;
    let mut pending_start: usize = 0;
    let mut reports: Vec<(usize, usize, usize)> = Vec::new();
    let mut i: usize = 0;
    proof {
        assert(lv.take(0) =~= Seq::<Seq<char>>::empty());
        assert(lines_view(out@) =~= join_fold(lv.take(0)).out);
        assert(reports@.map_values(|t: (usize, usize, usize)| (t.0 as int, t.1 as int, t.2 as int))
            =~= join_fold(lv.take(0)).reports);
    }
    while i < n
        invariant
            0 <= i <= n,
            n == lines@.len(),
            lv == lines_view(lines@),
            lines_view(out@) == join_fold(lv.take(i as int)).out,
            match pending {
                Some(buf) => join_fold(lv.take(i as int)).pending == Some(buf@),
                None => join_fold(lv.take(i as int)).pending is None,
            },
            pending is Some ==> pending_start == join_fold(lv.take(i as int)).pending_start,
            join_fold(lv.take(i as int)).seen == i,
            reports@.map_values(|t: (usize, usize, usize)| (t.0 as int, t.1 as int, t.2 as int))
                == join_fold(lv.take(i as int)).reports,
        decreases n - i,
    {
        let ghost st = join_fold(lv.take(i as int));
        proof {
            assert(lv.take(i + 1).drop_last() =~= lv.take(i as int));
            assert(lv.take(i + 1).last() == lines@[i as int]@);
        }
        let line = &lines[i];
        let term = is_terminated(line);
        match pending {
            Some(buf) => {
                let mut buf2 = buf;
                buf2.push(' ');
                let trimmed = trim(line);
                crate::text::append_chars(&mut buf2, &trimmed);
                proof {
                    assert(buf2@ =~= st.pending->0 + seq![' '] + trim_spec(lines@[i as int]@));
                }
                if term {
                    out.push(buf2);
                    reports.push((pending_start, i + 1, out.len()));
                    pending = None;
                    proof {
                        let st2 = join_fold(lv.take(i + 1));
                        assert(lines_view(out@) =~= st2.out);
                        assert(reports@.map_values(
                            |t: (usize, usize, usize)| (t.0 as int, t.1 as int, t.2 as int),
                        ) =~= st2.reports);
                    }
                } else {
                    pending = Some(buf2);
                }
            },
            None => {
                if marker_line(line) && !term {
                    pending = Some(line.clone());
                    pending_start = i + 1;
                    proof {
                        assert(pending->0@ =~= lines@[i as int]@);
                    }
                } else {
                    out.push(line.clone());
                    proof {
                        let st2 = join_fold(lv.take(i + 1));
                        assert(out@.last()@ =~= lines@[i as int]@);
                        assert(lines_view(out@) =~= st2.out);
                    }
                }
            },
        }
        i += 1;
    }
    proof {
        assert(lv.take(n as int) =~= lv);
    }
    (out, reports)
}

} // verus!
