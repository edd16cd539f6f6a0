//! The Interactive Protocol: one target file's migration as a
//! resumable state machine.
//!
//! The worker walks the file once.  It first collects one variable
//! binding per loaded subsystem, then asks where to put the message
//! variable's declaration, then handles the logical lines in order,
//! stopping at each statement that needs the operator and resuming
//! when an answer arrives.  Every pause is marked by a trailing
//! [`AppEvent::WaitForInput`]; events are handed out in the exact
//! order they are produced, and an invalid answer re-arms the same
//! question without touching any other state.  The buffer mutations a
//! session emits are pinned to the walk: the file is shown once,
//! before any edit; the declaration is inserted exactly once, at the
//! operator's line; and every replacement carries the position its
//! line holds in the display, one more than its logical position once
//! the declaration stands at or before it.

use vstd::prelude::*;

use crate::FCP;
use crate::log_list::LogLevel;
use crate::mdb_parser::CodeTables;
use crate::normalizer::join_log_lines;
use crate::normalizer::join_lines_spec;
use crate::normalizer::lemma_join_len;
use crate::parser::Binding;
use crate::parser::LineOutcome;
use crate::parser::MenuReply;
use crate::parser::Statement;
use crate::parser::build_replacement;
use crate::parser::menu_answer;
use crate::parser::parse_line;
use crate::parser::ResolutionSpec;
use crate::parser::binding_views;
use crate::parser::replacement_spec;
use crate::parser::resolve_rec;
use crate::parser::statement_spec;
use crate::parser::table_hit;
use crate::parser::trusted_block;
use crate::text::append_chars;
use crate::text::append_str;
use crate::text::chars_to_string;
use crate::text::lines_view;
use crate::text::parse_usize;
use crate::text::parse_usize_spec;
use crate::text::trim;
use crate::text::trim_spec;
use crate::text::str_to_chars;
use crate::text::unlines;
use crate::text::usize_to_chars;
use crate::tui::AppEvent;
use crate::tui::Edit;

verus! {

/// Where the worker stands between operator answers.
pub enum Phase {
    /// Asking the variable name for the subsystem at this position of
    /// the table list.
    AwaitBinding(usize),
    /// Asking at which line to insert the message variable's
    /// declaration.
    AwaitDeclLine,
    /// Working through the lines; no question is open.
    PerLine,
    /// Asking the operator to choose a subsystem for this statement.
    AwaitMenu(Statement),
    /// The file is finished.
    Done,
}

/// One target file's migration state.
pub struct Session {
    /// The loaded code tables.
    pub tables: CodeTables,
    /// The menu candidates: the subsystems that own a table, in load
    /// order.
    pub candidates: Vec<FCP>,
    /// The bindings collected so far, in declaration order.
    pub bindings: Vec<Binding>,
    /// The target file's name, for messages.
    pub file_name: Vec<char>,
    /// The physical lines as read.
    pub orig_lines: Vec<Vec<char>>,
    /// The logical lines after normalization.
    pub joined: Vec<Vec<char>>,
    /// Where the operator put the declaration; zero while unknown.
    pub decl_line: usize,
    /// The next logical line to handle, counted from zero.
    pub line_idx: usize,
    /// The output lines accumulated so far.
    pub out: Vec<Vec<char>>,
    /// Where the worker stands.
    pub phase: Phase,
}

/// Push one log event.
fn push_log(events: &mut Vec<AppEvent>, msg: Vec<char>, level: LogLevel)
    ensures
        final(events)@.len() == old(events)@.len() + 1,
        final(events)@.drop_last() == old(events)@,
        (match final(events)@.last() {
            AppEvent::Log(m, l) => m@ == msg@ && l == level,
            _ => false,
        }),
{
    let s = chars_to_string(&msg);
    events.push(AppEvent::Log(s, level));
    proof {
        assert(events@.drop_last() =~= old(events)@);
    }
}

impl Session {
    /// What holds of a session between calls.
    pub open spec fn inv(&self) -> bool {
        &&& self.tables.wf()
        &&& self.candidates@ == self.tables.spec_fcps()
        &&& self.line_idx <= self.joined@.len()
        &&& self.joined@.len() < usize::MAX
        &&& self.orig_lines@.len() < usize::MAX
        &&& (match self.phase {
            Phase::AwaitBinding(i) => i == self.bindings@.len() && i
                < self.tables.spec_tables().len() && self.line_idx == 0,
            Phase::AwaitMenu(_) => self.line_idx < self.joined@.len(),
            Phase::Done => self.line_idx == self.joined@.len(),
            _ => true,
        })
        &&& (match self.phase {
            Phase::AwaitBinding(_) => true,
            _ => lines_view(self.joined@) == join_lines_spec(lines_view(self.orig_lines@)),
        })
    }

    /// Whether the file is finished.
    pub fn is_done(&self) -> (r: bool)
        ensures
            r == (self.phase is Done),
    {
        match self.phase {
            Phase::Done => true,
            _ => false,
        }
    }

    /// The text written for the file: the output lines joined by
    /// newlines.
    pub fn output_text(&self) -> (r: Vec<char>)
        ensures
            ({
                let lv = lines_view(self.out@);
                r@ == (if lv.len() == 0 {
                    Seq::<char>::empty()
                } else {
                    crate::text::unlines_spec(lv).drop_last()
                })
            }),
    {
        let t = unlines(&self.out);
        let mut r = t;
        if r.len() > 0 {
            r.pop();
            proof {
                lemma_unlines_last(lines_view(self.out@));
            }
        } else {
            proof {
                assert(lines_view(self.out@).len() == 0) by {
                    if lines_view(self.out@).len() > 0 {
                        lemma_unlines_last(lines_view(self.out@));
                    }
                }
            }
        }
        r
    }

    /// Begin a file: greet, then either ask the first binding or,
    /// with no tables loaded, go straight to normalization.
    pub fn start(tables: CodeTables, file_name: Vec<char>, lines: Vec<Vec<char>>) -> (r: (
        Session,
        Vec<AppEvent>,
    ))
        requires
            tables.wf(),
            lines@.len() < usize::MAX,
        ensures
            r.0.inv(),
            r.0.tables == tables,
            r.0.file_name == file_name,
            r.0.orig_lines == lines,
            r.0.decl_line == 0,
            r.0.bindings@.len() == 0,
            r.0.out@.len() == 0,
            r.0.line_idx == 0,
            r.1@.len() >= 1,
            r.1@.last() is WaitForInput,
            (if tables.spec_tables().len() > 0 {
                r.0.phase == Phase::AwaitBinding(0usize)
            } else {
                r.0.phase is AwaitDeclLine
            }),
            (if tables.spec_tables().len() > 0 {
                buffer_events_of(r.1@).len() == 0
            } else {
                ({
                    let b = buffer_events_of(r.1@);
                    &&& b.len() == 1
                    &&& (match b[0] {
                        AppEvent::NewFile(t) => t@ == crate::text::unlines_spec(
                            join_lines_spec(lines_view(lines@)),
                        ),
                        _ => false,
                    })
                })
            }),
    {
        let mut candidates: Vec<FCP> = Vec::new();
        let n = tables.len();
        let mut i: usize = 0;
        proof {
            assert(candidates@ =~= tables.spec_fcps().take(0));
        }
        while i < n
            invariant
                0 <= i <= n,
                n == tables.spec_tables().len(),
                candidates@ == tables.spec_fcps().take(i as int),
            decreases n - i,
        {
            candidates.push(tables.fcp_at(i));
            i += 1;
            proof {
                assert(candidates@ =~= tables.spec_fcps().take(i as int));
            }
        }
        proof {
            assert(tables.spec_fcps().take(n as int) =~= tables.spec_fcps());
        }
        let mut events: Vec<AppEvent> = Vec::new();
        let mut msg = str_to_chars("------------ Editing ");
        append_chars(&mut msg, &file_name);
        append_str(&mut msg, " -------------");
        proof {
            assert(buffer_events_of(events@) =~= Seq::<AppEvent>::empty());
        }
        let ghost pre = events@;
        push_log(&mut events, msg, LogLevel::Info);
        proof {
            assert(buffer_events_of(events@) =~= buffer_events_of(pre));
        }
        let mut session = Session {
            tables,
            candidates,
            bindings: Vec::new(),
            file_name,
            orig_lines: lines,
            joined: Vec::new(),
            decl_line: 0,
            line_idx: 0,
            out: Vec::new(),
            phase: Phase::AwaitDeclLine,
        };
        if n > 0 {
            session.phase = Phase::AwaitBinding(0);
            session.prompt_binding(&mut events, 0);
        } else {
            session.begin_join(&mut events);
            proof {
                let b = buffer_events_of(events@);
                assert(b[0] == b.last());
            }
        }
        (session, events)
    }

    /// Ask for the variable name bound to the subsystem at position
    /// `i` of the table list.
    fn prompt_binding(&self, events: &mut Vec<AppEvent>, i: usize)
        requires
            i < self.tables.spec_tables().len(),
            self.candidates@ == self.tables.spec_fcps(),
        ensures
            final(events)@.len() == old(events)@.len() + 2,
            final(events)@.last() is WaitForInput,
            forall|k: int| 0 <= k < old(events)@.len() ==> final(events)@[k] == old(events)@[k],
            buffer_events_of(final(events)@) == buffer_events_of(old(events)@),
    {
        let mut msg = str_to_chars("Specify variable name for logger ");
        let name = self.candidates[i].to_str();
        append_str(&mut msg, name.as_str());
        append_str(&mut msg, " (for auto-search based on comments)");
        let ghost pre = events@;
        push_log(events, msg, LogLevel::Info);
        proof {
            assert(buffer_events_of(events@) =~= buffer_events_of(pre));
        }
        let ghost prw = events@;
        events.push(AppEvent::WaitForInput);
        proof {
            lemma_buffer_events_push(prw, events@.last());
        }
    }

    /// Normalize the file, show it, and ask for the declaration
    /// line.
    fn begin_join(&mut self, events: &mut Vec<AppEvent>)
        requires
            old(self).orig_lines@.len() < usize::MAX,
        ensures
            final(self).tables == old(self).tables,
            final(self).candidates == old(self).candidates,
            final(self).bindings == old(self).bindings,
            final(self).file_name == old(self).file_name,
            final(self).decl_line == old(self).decl_line,
            final(self).out == old(self).out,
            final(self).line_idx == old(self).line_idx,
            final(self).phase is AwaitDeclLine,
            lines_view(final(self).joined@) == join_lines_spec(lines_view(old(self).orig_lines@)),
            final(self).joined@.len() < usize::MAX,
            final(self).orig_lines == old(self).orig_lines,
            final(events)@.len() > old(events)@.len(),
            final(events)@.last() is WaitForInput,
            buffer_events_of(final(events)@).len() == buffer_events_of(old(events)@).len() + 1,
            buffer_events_of(final(events)@).take(buffer_events_of(old(events)@).len() as int)
                == buffer_events_of(old(events)@),
            (match buffer_events_of(final(events)@).last() {
                AppEvent::NewFile(t) => t@ == crate::text::unlines_spec(
                    join_lines_spec(lines_view(old(self).orig_lines@)),
                ),
                _ => false,
            }),
    {
        let ghost bb0 = buffer_events_of(events@);
        let msg = str_to_chars("-------------- Removing multi-line logs --------------");
        let ghost pr0 = events@;
        push_log(events, msg, LogLevel::Info);
        proof {
            assert(buffer_events_of(events@) =~= buffer_events_of(pr0));
        }
        let (joined, reports) = join_log_lines(&self.orig_lines);
        proof {
            lemma_join_len(lines_view(self.orig_lines@));
        }
        let m = reports.len();
        let mut k: usize = 0;
        let ghost evl = events@.len();
        while k < m
            invariant
                0 <= k <= m,
                m == reports@.len(),
                events@.len() >= evl,
                buffer_events_of(events@) == bb0,
            decreases m - k,
        {
            let (start, end, logical) = reports[k];
            let mut msg = str_to_chars("------ Multi-line log on lines ");
            let a = usize_to_chars(start);
            append_chars(&mut msg, &a);
            append_str(&mut msg, "-");
            let b = usize_to_chars(end);
            append_chars(&mut msg, &b);
            append_str(&mut msg, " (now on line ");
            let c = usize_to_chars(logical);
            append_chars(&mut msg, &c);
            append_str(&mut msg, ") ------");
            let ghost pre = events@;
            push_log(events, msg, LogLevel::Info);
            proof {
                assert(buffer_events_of(events@) =~= buffer_events_of(pre));
            }
            k += 1;
        }
        let text = unlines(&joined);
        let shown = chars_to_string(&text);
        proof {
            assert(shown@ == crate::text::unlines_spec(join_lines_spec(lines_view(
                self.orig_lines@,
            ))));
        }
        let ghost prn = events@;
        events.push(AppEvent::NewFile(shown));
        proof {
            lemma_buffer_events_push(prn, events@.last());
            assert(buffer_events_of(events@) == buffer_events_of(prn).push(events@.last()));
            assert(buffer_events_of(events@).take(bb0.len() as int) =~= bb0);
        }
        let msg = str_to_chars("-------------- Replacing logs --------------");
        let ghost pr1 = events@;
        push_log(events, msg, LogLevel::Info);
        proof {
            assert(buffer_events_of(events@) =~= buffer_events_of(pr1));
        }
        let msg = str_to_chars("Specify line number to put static variable declaration");
        let ghost pr2 = events@;
        push_log(events, msg, LogLevel::Info);
        proof {
            assert(buffer_events_of(events@) =~= buffer_events_of(pr2));
        }
        let ghost pr3 = events@;
        events.push(AppEvent::WaitForInput);
        proof {
            lemma_buffer_events_push(pr3, events@.last());
        }
        self.joined = joined;
        self.phase = Phase::AwaitDeclLine;
    }
}

proof fn lemma_unlines_last(ls: Seq<Seq<char>>)
    requires
        ls.len() > 0,
    ensures
        crate::text::unlines_spec(ls).len() > 0,
        crate::text::unlines_spec(ls).last() == '\n',
        crate::text::unlines_spec(ls).drop_last() == crate::text::unlines_spec(ls.drop_last())
            + ls.last(),
    decreases ls.len(),
{
    crate::text::lemma_unlines_push(ls.drop_last(), ls.last());
    assert(ls.drop_last().push(ls.last()) =~= ls);
    let u = crate::text::unlines_spec(ls.drop_last()) + ls.last() + seq!['\n'];
    assert(u.last() == '\n');
    assert(u.drop_last() =~= crate::text::unlines_spec(ls.drop_last()) + ls.last());
}


/// Where the worker's walk over the logical lines pauses next, and
/// what the output holds when it does.  Lines are taken in order from
/// position `i` (counted from zero); the declaration enters when its
/// line is reached, behind one empty line if nothing was written yet;
/// a line that is no statement, blank lines included, passes through
/// unchanged; a statement resolves from its comments where they
/// decide it, around an empty template when named bindings all miss;
/// the walk stops at the first statement that needs the operator, or
/// past the last line.
pub open spec fn run_lines(
    out: Seq<Seq<char>>,
    lines: Seq<Seq<char>>,
    i: int,
    decl: int,
    bindings: Seq<(Seq<char>, FCP)>,
    ts: CodeTables,
) -> (Seq<Seq<char>>, int)
    decreases lines.len() - i,
    when 0 <= i <= lines.len()
{
    if i == lines.len() {
        (out, i)
    } else {
        let line = lines[i];
        let out1 = if i + 1 == decl {
            (if out.len() == 0 {
                out.push(Seq::<char>::empty())
            } else {
                out
            }).push("static QString mdb_message;"@)
        } else {
            out
        };
        match statement_spec(line) {
            None => run_lines(out1.push(line), lines, i + 1, decl, bindings, ts),
            Some(st) => {
                let block = trusted_block(lines, i + 1, st.token);
                match resolve_rec(bindings, ts, block, st.token) {
                    ResolutionSpec::Hit(_, m) => run_lines(
                        out1.push(replacement_spec(st, m)),
                        lines,
                        i + 1,
                        decl,
                        bindings,
                        ts,
                    ),
                    ResolutionSpec::Degraded => run_lines(
                        out1.push(replacement_spec(st, Seq::empty())),
                        lines,
                        i + 1,
                        decl,
                        bindings,
                        ts,
                    ),
                    ResolutionSpec::NoBinding => (out1, i),
                }
            },
        }
    }
}

/// The one-line shift a position takes once the declaration stands
/// at or before it.
pub open spec fn shift_of(line: int, decl: int) -> int {
    if 1 <= decl && decl <= line {
        1int
    } else {
        0int
    }
}

/// The buffer edits the walk emits from position `i` on, in order:
/// the declaration enters once, at its own line and before that
/// line's edit; every rewritten line is replaced at its position plus
/// the one-line shift the declaration causes.
pub open spec fn run_edits(
    lines: Seq<Seq<char>>,
    i: int,
    decl: int,
    bindings: Seq<(Seq<char>, FCP)>,
    ts: CodeTables,
) -> Seq<Edit>
    decreases lines.len() - i,
    when 0 <= i <= lines.len()
{
    if i == lines.len() {
        Seq::empty()
    } else {
        let line = lines[i];
        let pre: Seq<Edit> = if i + 1 == decl {
            seq![Edit::Insert(decl, "static QString mdb_message;"@)]
        } else {
            Seq::empty()
        };
        match statement_spec(line) {
            None => pre + run_edits(lines, i + 1, decl, bindings, ts),
            Some(st) => {
                let block = trusted_block(lines, i + 1, st.token);
                match resolve_rec(bindings, ts, block, st.token) {
                    ResolutionSpec::Hit(_, m) => pre + seq![
                        Edit::Replace(i + 1 + shift_of(i + 1, decl), replacement_spec(st, m)),
                    ] + run_edits(lines, i + 1, decl, bindings, ts),
                    ResolutionSpec::Degraded => pre + seq![
                        Edit::Replace(
                            i + 1 + shift_of(i + 1, decl),
                            replacement_spec(st, Seq::empty()),
                        ),
                    ] + run_edits(lines, i + 1, decl, bindings, ts),
                    ResolutionSpec::NoBinding => pre,
                }
            },
        }
    }
}

/// The buffer-mutation events of a batch, in emission order.
pub open spec fn buffer_events_of(es: Seq<AppEvent>) -> Seq<AppEvent>
    decreases es.len(),
{
    if es.len() == 0 {
        Seq::empty()
    } else {
        buffer_events_of(es.drop_last()) + (match es.last() {
            AppEvent::NewFile(_) => seq![es.last()],
            AppEvent::InsertFileLine(_, _) => seq![es.last()],
            AppEvent::ReplaceFileLine(_, _) => seq![es.last()],
            _ => Seq::empty(),
        })
    }
}

/// The events are exactly the given edits, position for position and
/// payload for payload, in the same order.
pub open spec fn events_match_edits(es: Seq<AppEvent>, ed: Seq<Edit>) -> bool {
    &&& es.len() == ed.len()
    &&& forall|k: int|
        0 <= k < es.len() ==> (match (#[trigger] es[k], ed[k]) {
            (AppEvent::InsertFileLine(n, t), Edit::Insert(p, x)) => n == p && t@ == x,
            (AppEvent::ReplaceFileLine(n, t), Edit::Replace(p, x)) => n == p && t@ == x,
            _ => false,
        })
}

/// Whether an event is a buffer mutation.
pub open spec fn is_buffer_event(e: AppEvent) -> bool {
    e is NewFile || e is InsertFileLine || e is ReplaceFileLine
}

proof fn lemma_buffer_events_push(es: Seq<AppEvent>, e: AppEvent)
    ensures
        !is_buffer_event(e) ==> buffer_events_of(es.push(e)) == buffer_events_of(es),
        is_buffer_event(e) ==> buffer_events_of(es.push(e)) == buffer_events_of(es).push(e),
{
    assert(es.push(e).drop_last() =~= es);
    assert(es.push(e).last() == e);
    if is_buffer_event(e) {
        assert(buffer_events_of(es.push(e)) =~= buffer_events_of(es).push(e));
    } else {
        assert(buffer_events_of(es.push(e)) =~= buffer_events_of(es));
    }
}

proof fn lemma_match_push(es: Seq<AppEvent>, ed: Seq<Edit>, e: AppEvent, d: Edit)
    requires
        events_match_edits(es, ed),
        (match (e, d) {
            (AppEvent::InsertFileLine(n, t), Edit::Insert(p, x)) => n == p && t@ == x,
            (AppEvent::ReplaceFileLine(n, t), Edit::Replace(p, x)) => n == p && t@ == x,
            _ => false,
        }),
    ensures
        events_match_edits(es.push(e), ed.push(d)),
{
    assert forall|k: int|
        0 <= k < es.push(e).len() implies (match (#[trigger] es.push(e)[k], ed.push(d)[k]) {
        (AppEvent::InsertFileLine(n, t), Edit::Insert(p, x)) => n == p && t@ == x,
        (AppEvent::ReplaceFileLine(n, t), Edit::Replace(p, x)) => n == p && t@ == x,
        _ => false,
    }) by {
        if k < es.len() {
            assert(es.push(e)[k] == es[k]);
            assert(ed.push(d)[k] == ed[k]);
        }
    }
}

/// How the walk's edits are laid out, for any declaration line the
/// operator can choose: the only insertion a walk ever emits is the
/// declaration, at its chosen line; it is emitted at most once, and
/// never once the walk has passed that line; and everything emitted
/// before it is a replacement below the declaration line — so the
/// declaration's insertion precedes every edit whose position the
/// one-line shift affects.
pub proof fn lemma_edit_order(
    lines: Seq<Seq<char>>,
    i: int,
    decl: int,
    bindings: Seq<(Seq<char>, FCP)>,
    ts: CodeTables,
)
    requires
        0 <= i <= lines.len(),
    ensures
        ({
            let e = run_edits(lines, i, decl, bindings, ts);
            &&& forall|k: int|
                0 <= k < e.len() && (#[trigger] e[k]) is Insert ==> e[k] == Edit::Insert(
                    decl,
                    "static QString mdb_message;"@,
                )
            &&& forall|k1: int, k2: int|
                0 <= k1 < k2 < e.len() ==> !((#[trigger] e[k1]) is Insert && (
                #[trigger] e[k2]) is Insert)
            &&& forall|k1: int, k2: int|
                0 <= k1 < k2 < e.len() && (#[trigger] e[k2]) is Insert ==> (match (
                #[trigger] e[k1]) {
                    Edit::Replace(p, _) => p < decl,
                    Edit::Insert(_, _) => false,
                })
            &&& (i + 1 > decl ==> forall|k: int|
                0 <= k < e.len() ==> !((#[trigger] e[k]) is Insert))
        }),
    decreases lines.len() - i,
{
    let e = run_edits(lines, i, decl, bindings, ts);
    if i == lines.len() {
    } else {
        lemma_edit_order(lines, i + 1, decl, bindings, ts);
        let rest = run_edits(lines, i + 1, decl, bindings, ts);
        let pre: Seq<Edit> = if i + 1 == decl {
            seq![Edit::Insert(decl, "static QString mdb_message;"@)]
        } else {
            Seq::empty()
        };
        let line = lines[i];
        match statement_spec(line) {
            None => {
                assert(e == pre + rest);
                assert(forall|k: int|
                    0 <= k < e.len() ==> #[trigger] e[k] == (if k < pre.len() {
                        pre[k]
                    } else {
                        rest[k - pre.len()]
                    }));
            },
            Some(st) => {
                let block = trusted_block(lines, i + 1, st.token);
                match resolve_rec(bindings, ts, block, st.token) {
                    ResolutionSpec::Hit(_, m) => {
                        let mid = seq![
                            Edit::Replace(i + 1 + shift_of(i + 1, decl), replacement_spec(st, m)),
                        ];
                        assert(e == pre + mid + rest);
                        assert(forall|k: int|
                            0 <= k < e.len() ==> #[trigger] e[k] == (if k < pre.len() {
                                pre[k]
                            } else if k < pre.len() + 1 {
                                mid[k - pre.len()]
                            } else {
                                rest[k - pre.len() - 1]
                            }));
                        assert(pre.len() == 1 ==> i + 1 + shift_of(i + 1, decl) >= decl);
                        assert(pre.len() == 0 && i + 1 < decl ==> i + 1 + shift_of(i + 1, decl)
                            < decl);
                    },
                    ResolutionSpec::Degraded => {
                        let mid = seq![
                            Edit::Replace(
                                i + 1 + shift_of(i + 1, decl),
                                replacement_spec(st, Seq::empty()),
                            ),
                        ];
                        assert(e == pre + mid + rest);
                        assert(forall|k: int|
                            0 <= k < e.len() ==> #[trigger] e[k] == (if k < pre.len() {
                                pre[k]
                            } else if k < pre.len() + 1 {
                                mid[k - pre.len()]
                            } else {
                                rest[k - pre.len() - 1]
                            }));
                    },
                    ResolutionSpec::NoBinding => {
                        assert(e == pre);
                    },
                }
            },
        }
    }
}

proof fn lemma_match_split(es: Seq<AppEvent>, ed1: Seq<Edit>, ed2: Seq<Edit>)
    requires
        ed1.len() <= es.len(),
        events_match_edits(es.take(ed1.len() as int), ed1),
        events_match_edits(es.skip(ed1.len() as int), ed2),
    ensures
        events_match_edits(es, ed1 + ed2),
{
    assert(es.len() == ed1.len() + ed2.len());
    assert forall|k: int|
        0 <= k < es.len() implies (match (#[trigger] es[k], (ed1 + ed2)[k]) {
        (AppEvent::InsertFileLine(n, t), Edit::Insert(p, x)) => n == p && t@ == x,
        (AppEvent::ReplaceFileLine(n, t), Edit::Replace(p, x)) => n == p && t@ == x,
        _ => false,
    }) by {
        if k < ed1.len() {
            assert(es.take(ed1.len() as int)[k] == es[k]);
            assert((ed1 + ed2)[k] == ed1[k]);
        } else {
            assert(es.skip(ed1.len() as int)[k - ed1.len()] == es[k]);
            assert((ed1 + ed2)[k] == ed2[k - ed1.len()]);
        }
    }
}

impl Session {
    /// Work through the lines from the current position, emitting the
    /// declaration, pass-through and rewrite decisions, until either a
    /// statement needs the operator or the file ends.
    #[verifier::rlimit(100)]
    fn advance(&mut self, events: &mut Vec<AppEvent>)
        requires
            old(self).inv(),
            old(self).phase is PerLine,
        ensures
            final(self).inv(),
            final(self).tables == old(self).tables,
            final(self).candidates == old(self).candidates,
            final(self).bindings == old(self).bindings,
            final(self).joined == old(self).joined,
            final(self).orig_lines == old(self).orig_lines,
            final(self).decl_line == old(self).decl_line,
            final(self).line_idx >= old(self).line_idx,
            final(self).out@.len() >= old(self).out@.len(),
            forall|k: int|
                0 <= k < old(self).out@.len() ==> final(self).out@[k] == old(self).out@[k],
            final(self).phase is AwaitMenu || final(self).phase is Done,
            final(events)@.len() > old(events)@.len(),
            final(self).phase is AwaitMenu ==> final(events)@.last() is WaitForInput,
            final(self).phase is Done ==> final(events)@.last() is ReadyToQuit,
            ({
                let r = run_lines(
                    lines_view(old(self).out@),
                    lines_view(old(self).joined@),
                    old(self).line_idx as int,
                    old(self).decl_line as int,
                    binding_views(old(self).bindings@),
                    old(self).tables,
                );
                lines_view(final(self).out@) == r.0 && final(self).line_idx as int == r.1
            }),
            (match final(self).phase {
                Phase::AwaitMenu(stmt) => statement_spec(
                    lines_view(old(self).joined@)[final(self).line_idx as int],
                ) == Some(stmt.spec_view()),
                _ => true,
            }),
            (final(self).phase is Done <==> final(self).line_idx == final(self).joined@.len()),
            ({
                let adds = run_edits(
                    lines_view(old(self).joined@),
                    old(self).line_idx as int,
                    old(self).decl_line as int,
                    binding_views(old(self).bindings@),
                    old(self).tables,
                );
                let b0 = buffer_events_of(old(events)@);
                let b1 = buffer_events_of(final(events)@);
                &&& b1.len() == b0.len() + adds.len()
                &&& b1.take(b0.len() as int) == b0
                &&& events_match_edits(b1.skip(b0.len() as int), adds)
            }),
    {
        let n = self.joined.len();
        let ghost ev0 = events@.len();
        let ghost b0 = buffer_events_of(events@);
        let ghost mut done_edits: Seq<Edit> = Seq::empty();
        proof {
            assert(buffer_events_of(events@).take(b0.len() as int) =~= b0);
            assert(buffer_events_of(events@).skip(b0.len() as int) =~= Seq::<AppEvent>::empty());
        }
        while self.line_idx < n
            invariant
                self.inv(),
                self.phase is PerLine,
                n == self.joined@.len(),
                self.tables == old(self).tables,
                self.candidates == old(self).candidates,
                self.bindings == old(self).bindings,
                self.joined == old(self).joined,
                self.orig_lines == old(self).orig_lines,
                self.decl_line == old(self).decl_line,
                self.line_idx >= old(self).line_idx,
                self.out@.len() >= old(self).out@.len(),
                forall|k: int|
                    0 <= k < old(self).out@.len() ==> self.out@[k] == old(self).out@[k],
                ev0 == old(events)@.len(),
                events@.len() >= ev0,
                b0 == buffer_events_of(old(events)@),
                run_edits(
                    lines_view(old(self).joined@),
                    old(self).line_idx as int,
                    old(self).decl_line as int,
                    binding_views(old(self).bindings@),
                    old(self).tables,
                ) == done_edits + run_edits(
                    lines_view(self.joined@),
                    self.line_idx as int,
                    self.decl_line as int,
                    binding_views(self.bindings@),
                    self.tables,
                ),
                buffer_events_of(events@).len() == b0.len() + done_edits.len(),
                buffer_events_of(events@).take(b0.len() as int) == b0,
                events_match_edits(buffer_events_of(events@).skip(b0.len() as int), done_edits),
                run_lines(
                    lines_view(old(self).out@),
                    lines_view(old(self).joined@),
                    old(self).line_idx as int,
                    old(self).decl_line as int,
                    binding_views(old(self).bindings@),
                    old(self).tables,
                ) == run_lines(
                    lines_view(self.out@),
                    lines_view(self.joined@),
                    self.line_idx as int,
                    self.decl_line as int,
                    binding_views(self.bindings@),
                    self.tables,
                ),
            decreases n - self.line_idx,
        {
            let ghost lv = lines_view(self.joined@);
            let ghost bv = binding_views(self.bindings@);
            let ghost ts0 = self.tables;
            let ghost out_pre = lines_view(self.out@);
            let ghost i0 = self.line_idx as int;
            let ghost d = self.decl_line as int;
            let ghost done0 = done_edits;
            let ghost pre_edits = (if i0 + 1 == d {
                seq![Edit::Insert(d, "static QString mdb_message;"@)]
            } else {
                Seq::<Edit>::empty()
            });
            let line_num = self.line_idx + 1;
            if line_num == self.decl_line {
                let decl = str_to_chars("static QString mdb_message;");
                let ghost preev = events@;
                events.push(AppEvent::InsertFileLine(line_num, chars_to_string(&decl)));
                proof {
                    lemma_buffer_events_push(preev, events@.last());
                    assert(buffer_events_of(events@).take(b0.len() as int) =~= buffer_events_of(
                        preev,
                    ).take(b0.len() as int));
                    assert(buffer_events_of(events@).skip(b0.len() as int) =~= buffer_events_of(
                        preev,
                    ).skip(b0.len() as int).push(events@.last()));
                    lemma_match_push(
                        buffer_events_of(preev).skip(b0.len() as int),
                        done_edits,
                        events@.last(),
                        Edit::Insert(d, "static QString mdb_message;"@),
                    );
                    done_edits = done_edits.push(Edit::Insert(d, "static QString mdb_message;"@));
                    assert(done_edits =~= done0 + pre_edits);
                }
                if self.out.len() == 0 {
                    self.out.push(Vec::new());
                    proof {
                        assert(lines_view(self.out@) =~= out_pre.push(Seq::<char>::empty()));
                    }
                }
                let ghost mid = lines_view(self.out@);
                self.out.push(decl);
                proof {
                    assert(lines_view(self.out@) =~= mid.push("static QString mdb_message;"@));
                }
            }
            proof {
                assert(done_edits =~= done0 + pre_edits);
            }
            let ghost out1 = (if i0 + 1 == d {
                (if out_pre.len() == 0 {
                    out_pre.push(Seq::<char>::empty())
                } else {
                    out_pre
                }).push("static QString mdb_message;"@)
            } else {
                out_pre
            });
            proof {
                assert(lines_view(self.out@) == out1);
            }
            let shift: usize = if self.decl_line >= 1 && self.decl_line <= line_num {
                1
            } else {
                0
            };
            let rec = line_num + shift;
            let line = self.joined[self.line_idx].clone();
            proof {
                assert(line@ =~= self.joined@[i0]@);
                assert(line@ == lv[i0]);
            }
            let t = trim(&line);
            let outcome = parse_line(&line, &self.joined, line_num, &self.bindings, &self.tables);
            match outcome {
                LineOutcome::PassThrough => {
                    proof {
                        assert(statement_spec(lv[i0]) is None);
                        assert(run_lines(out_pre, lv, i0, d, bv, ts0) == run_lines(
                            out1.push(lv[i0]),
                            lv,
                            i0 + 1,
                            d,
                            bv,
                            ts0,
                        ));
                    }
                    self.out.push(line);
                    proof {
                        assert(lines_view(self.out@) =~= out1.push(lv[i0]));
                        assert(run_edits(lv, i0, d, bv, ts0) == pre_edits + run_edits(
                            lv,
                            i0 + 1,
                            d,
                            bv,
                            ts0,
                        ));
                        assert(done0 + (pre_edits + run_edits(lv, i0 + 1, d, bv, ts0))
                            =~= done_edits + run_edits(lv, i0 + 1, d, bv, ts0));
                    }
                    self.line_idx += 1;
                },
                LineOutcome::Rewritten { line: nl, fcp, template, misses } => {
                    proof {
                        let st = statement_spec(lv[i0])->0;
                        assert(nl@ == replacement_spec(st, template@));
                        assert(run_lines(out_pre, lv, i0, d, bv, ts0) == run_lines(
                            out1.push(replacement_spec(st, template@)),
                            lv,
                            i0 + 1,
                            d,
                            bv,
                            ts0,
                        ));
                    }
                    let token = match crate::parser::parse_statement(&line) {
                        Some(st) => st.token,
                        None => Vec::new(),
                    };
                    self.log_found_comments(events, line_num);
                    self.log_misses(events, &misses, &token);
                    let mut msg = str_to_chars("Got ");
                    append_chars(&mut msg, &template);
                    append_str(&mut msg, " for ");
                    append_chars(&mut msg, &token);
                    append_str(&mut msg, " code in ");
                    let name = fcp.to_chars();
                    append_chars(&mut msg, &name);
                    let ghost prg = events@;
                    push_log(events, msg, LogLevel::Info);
                    proof {
                        assert(buffer_events_of(events@) =~= buffer_events_of(prg));
                    }
                    self.log_replacing(events, line_num);
                    let ghost preev2 = events@;
                    events.push(AppEvent::ReplaceFileLine(rec, chars_to_string(&nl)));
                    proof {
                        let st = statement_spec(lv[i0])->0;
                        let rep = Edit::Replace(
                            i0 + 1 + shift_of(i0 + 1, d),
                            replacement_spec(st, template@),
                        );
                        lemma_buffer_events_push(preev2, events@.last());
                        assert(rec as int == i0 + 1 + shift_of(i0 + 1, d));
                        assert(buffer_events_of(events@).take(b0.len() as int)
                            =~= buffer_events_of(preev2).take(b0.len() as int));
                        assert(buffer_events_of(events@).skip(b0.len() as int)
                            =~= buffer_events_of(preev2).skip(b0.len() as int).push(
                            events@.last(),
                        ));
                        lemma_match_push(
                            buffer_events_of(preev2).skip(b0.len() as int),
                            done_edits,
                            events@.last(),
                            rep,
                        );
                        done_edits = done_edits.push(rep);
                        assert(done_edits =~= done0 + pre_edits + seq![rep]);
                    }
                    let ghost nlv = nl@;
                    self.out.push(nl);
                    proof {
                        let st = statement_spec(lv[i0])->0;
                        let rep = Edit::Replace(
                            i0 + 1 + shift_of(i0 + 1, d),
                            replacement_spec(st, template@),
                        );
                        assert(lines_view(self.out@) =~= out1.push(nlv));
                        assert(run_edits(lv, i0, d, bv, ts0) == pre_edits + seq![rep]
                            + run_edits(lv, i0 + 1, d, bv, ts0));
                        assert(done0 + (pre_edits + seq![rep] + run_edits(lv, i0 + 1, d, bv, ts0))
                            =~= done_edits + run_edits(lv, i0 + 1, d, bv, ts0));
                    }
                    self.line_idx += 1;
                },
                LineOutcome::Degraded { line: nl, misses } => {
                    proof {
                        let st = statement_spec(lv[i0])->0;
                        assert(nl@ == replacement_spec(st, Seq::<char>::empty()));
                        assert(run_lines(out_pre, lv, i0, d, bv, ts0) == run_lines(
                            out1.push(replacement_spec(st, Seq::<char>::empty())),
                            lv,
                            i0 + 1,
                            d,
                            bv,
                            ts0,
                        ));
                    }
                    let token = match crate::parser::parse_statement(&line) {
                        Some(st) => st.token,
                        None => Vec::new(),
                    };
                    self.log_found_comments(events, line_num);
                    self.log_misses(events, &misses, &token);
                    self.log_replacing(events, line_num);
                    let ghost preev2 = events@;
                    events.push(AppEvent::ReplaceFileLine(rec, chars_to_string(&nl)));
                    proof {
                        let st = statement_spec(lv[i0])->0;
                        let rep = Edit::Replace(
                            i0 + 1 + shift_of(i0 + 1, d),
                            replacement_spec(st, Seq::empty()),
                        );
                        lemma_buffer_events_push(preev2, events@.last());
                        assert(rec as int == i0 + 1 + shift_of(i0 + 1, d));
                        assert(buffer_events_of(events@).take(b0.len() as int)
                            =~= buffer_events_of(preev2).take(b0.len() as int));
                        assert(buffer_events_of(events@).skip(b0.len() as int)
                            =~= buffer_events_of(preev2).skip(b0.len() as int).push(
                            events@.last(),
                        ));
                        lemma_match_push(
                            buffer_events_of(preev2).skip(b0.len() as int),
                            done_edits,
                            events@.last(),
                            rep,
                        );
                        done_edits = done_edits.push(rep);
                        assert(done_edits =~= done0 + pre_edits + seq![rep]);
                    }
                    let ghost nlv = nl@;
                    self.out.push(nl);
                    proof {
                        let st = statement_spec(lv[i0])->0;
                        let rep = Edit::Replace(
                            i0 + 1 + shift_of(i0 + 1, d),
                            replacement_spec(st, Seq::empty()),
                        );
                        assert(lines_view(self.out@) =~= out1.push(nlv));
                        assert(run_edits(lv, i0, d, bv, ts0) == pre_edits + seq![rep]
                            + run_edits(lv, i0 + 1, d, bv, ts0));
                        assert(done0 + (pre_edits + seq![rep] + run_edits(lv, i0 + 1, d, bv, ts0))
                            =~= done_edits + run_edits(lv, i0 + 1, d, bv, ts0));
                    }
                    self.line_idx += 1;
                },
                LineOutcome::NeedsMenu { stmt } => {
                    proof {
                        assert(run_lines(out_pre, lv, i0, d, bv, ts0) == (out1, i0));
                        assert(run_edits(lv, i0, d, bv, ts0) == pre_edits);
                        assert(done_edits =~= done0 + run_edits(lv, i0, d, bv, ts0));
                    }
                    let mut base = str_to_chars("---------For line ");
                    let a = usize_to_chars(line_num);
                    append_chars(&mut base, &a);
                    append_str(&mut base, " select mdb file----------\n");
                    append_chars(&mut base, &t);
                    append_str(&mut base, "\n");
                    let m = self.candidates.len();
                    let mut c: usize = 0;
                    while c < m
                        invariant
                            0 <= c <= m,
                            m == self.candidates@.len(),
                        decreases m - c,
                    {
                        let b = usize_to_chars(c + 1);
                        append_chars(&mut base, &b);
                        append_str(&mut base, " - ");
                        let name = self.candidates[c].to_chars();
                        append_chars(&mut base, &name);
                        append_str(&mut base, "\n");
                        c += 1;
                    }
                    let ghost prb = events@;
                    push_log(events, base, LogLevel::Info);
                    proof {
                        assert(buffer_events_of(events@) =~= buffer_events_of(prb));
                    }
                    let ghost prj = events@;
                    events.push(AppEvent::JumpLine(rec));
                    proof {
                        lemma_buffer_events_push(prj, events@.last());
                    }
                    let ghost prw = events@;
                    events.push(AppEvent::WaitForInput);
                    proof {
                        lemma_buffer_events_push(prw, events@.last());
                    }
                    self.phase = Phase::AwaitMenu(stmt);
                    return ;
                },
            }
        }
        proof {
            assert(run_edits(
                lines_view(self.joined@),
                self.line_idx as int,
                self.decl_line as int,
                binding_views(self.bindings@),
                self.tables,
            ) =~= Seq::<Edit>::empty());
            assert(done_edits + Seq::<Edit>::empty() =~= done_edits);
        }
        let ghost prq = events@;
        events.push(AppEvent::ReadyToQuit);
        proof {
            lemma_buffer_events_push(prq, events@.last());
        }
        self.phase = Phase::Done;
    }

    /// Log that a statement's surrounding comments decided it.
    fn log_found_comments(&self, events: &mut Vec<AppEvent>, line_num: usize)
        ensures
            final(events)@.len() > old(events)@.len(),
            buffer_events_of(final(events)@) == buffer_events_of(old(events)@),
    {
        let mut msg = str_to_chars("--------- For line ");
        let a = usize_to_chars(line_num);
        append_chars(&mut msg, &a);
        append_str(&mut msg, " ------- found comments");
        let ghost pre = events@;
        push_log(events, msg, LogLevel::Trace);
        proof {
            assert(buffer_events_of(events@) =~= buffer_events_of(pre));
        }
    }

    /// Log one miss per subsystem that was named but lacks the token.
    fn log_misses(&self, events: &mut Vec<AppEvent>, misses: &Vec<FCP>, token: &Vec<char>)
        ensures
            final(events)@.len() >= old(events)@.len(),
            buffer_events_of(final(events)@) == buffer_events_of(old(events)@),
    {
        let m = misses.len();
        let mut k: usize = 0;
        let ghost ev0 = events@.len();
        while k < m
            invariant
                0 <= k <= m,
                m == misses@.len(),
                events@.len() >= ev0,
                buffer_events_of(events@) == buffer_events_of(old(events)@),
            decreases m - k,
        {
            let mut msg = str_to_chars("No error code for ");
            append_chars(&mut msg, token);
            append_str(&mut msg, " in ");
            let name = misses[k].to_chars();
            append_chars(&mut msg, &name);
            let ghost pre = events@;
            push_log(events, msg, LogLevel::Error);
            proof {
                assert(buffer_events_of(events@) =~= buffer_events_of(pre));
            }
            k += 1;
        }
    }

    /// Log that a line is being replaced.
    fn log_replacing(&self, events: &mut Vec<AppEvent>, line_num: usize)
        ensures
            final(events)@.len() > old(events)@.len(),
            buffer_events_of(final(events)@) == buffer_events_of(old(events)@),
    {
        let mut msg = str_to_chars("------- Replacing log on line ");
        let a = usize_to_chars(line_num);
        append_chars(&mut msg, &a);
        append_str(&mut msg, " --------");
        let ghost pre = events@;
        push_log(events, msg, LogLevel::Trace);
        proof {
            assert(buffer_events_of(events@) =~= buffer_events_of(pre));
        }
    }
}


impl Session {
    /// Feed one operator submission to the worker and collect the
    /// events up to the next pause.  An answer that the open question
    /// cannot accept re-arms the question: the state is untouched and
    /// the events are exactly an echo, one error report and one
    /// renewed wait.
    pub fn submit(&mut self, text: &str) -> (events: Vec<AppEvent>)
        requires
            old(self).inv(),
            !(old(self).phase is PerLine),
        ensures
            final(self).inv(),
            (match old(self).phase {
                Phase::AwaitBinding(i) => {
                    &&& final(self).bindings@.len() == i + 1
                    &&& final(self).bindings@.last().name@ == trim_spec(text@)
                    &&& final(self).bindings@.last().fcp == old(self).tables.spec_fcps()[i as int]
                    &&& final(self).bindings@.drop_last() == old(self).bindings@
                    &&& final(self).out == old(self).out
                    &&& final(self).line_idx == old(self).line_idx
                    &&& events@.len() >= 1
                    &&& events@.last() is WaitForInput
                    &&& (if i + 1 < old(self).tables.spec_tables().len() {
                        final(self).phase == Phase::AwaitBinding((i + 1) as usize)
                    } else {
                        final(self).phase is AwaitDeclLine
                    })
                    &&& (i + 1 < old(self).tables.spec_tables().len() ==> buffer_events_of(
                        events@,
                    ).len() == 0)
                    &&& (i + 1 >= old(self).tables.spec_tables().len() ==> ({
                        let b = buffer_events_of(events@);
                        &&& b.len() == 1
                        &&& (match b[0] {
                            AppEvent::NewFile(t) => t@ == crate::text::unlines_spec(
                                join_lines_spec(lines_view(old(self).orig_lines@)),
                            ),
                            _ => false,
                        })
                    }))
                },
                Phase::AwaitDeclLine => {
                    match parse_usize_spec(trim_spec(text@)) {
                        None => {
                            &&& *final(self) == *old(self)
                            &&& events@.len() == 3
                            &&& events@[0] is Log
                            &&& (match events@[1] {
                                AppEvent::Log(_, l) => l is Error,
                                _ => false,
                            })
                            &&& events@[2] is WaitForInput
                            &&& buffer_events_of(events@).len() == 0
                        },
                        Some(nn) => {
                            &&& final(self).decl_line == nn
                            &&& final(self).out@.len() >= old(self).out@.len()
                            &&& events@.len() >= 1
                            &&& (final(self).phase is AwaitMenu || final(self).phase is Done)
                            &&& (final(self).phase is AwaitMenu ==> events@.last()
                                is WaitForInput)
                            &&& (final(self).phase is Done ==> events@.last() is ReadyToQuit)
                            &&& final(self).joined == old(self).joined
                            &&& (final(self).phase is Done <==> final(self).line_idx == old(
                                self,
                            ).joined@.len())
                            &&& ({
                                let r = run_lines(
                                    lines_view(old(self).out@),
                                    lines_view(old(self).joined@),
                                    old(self).line_idx as int,
                                    nn as int,
                                    binding_views(old(self).bindings@),
                                    old(self).tables,
                                );
                                lines_view(final(self).out@) == r.0 && final(self).line_idx as int
                                    == r.1
                            })
                            &&& events_match_edits(
                                buffer_events_of(events@),
                                run_edits(
                                    lines_view(old(self).joined@),
                                    old(self).line_idx as int,
                                    nn as int,
                                    binding_views(old(self).bindings@),
                                    old(self).tables,
                                ),
                            )
                        },
                    }
                },
                Phase::AwaitMenu(stmt) => {
                    let parsed = parse_usize_spec(trim_spec(text@));
                    if parsed is None || parsed->0 < 1 || parsed->0 > old(
                        self,
                    ).candidates@.len() {
                        &&& *final(self) == *old(self)
                        &&& events@.len() == 3
                        &&& events@[0] is Log
                        &&& (match events@[1] {
                            AppEvent::Log(_, l) => l is Error,
                            _ => false,
                        })
                        &&& events@[2] is WaitForInput
                        &&& buffer_events_of(events@).len() == 0
                    } else {
                        match table_hit(
                            old(self).tables,
                            old(self).candidates@[parsed->0 - 1],
                            stmt.token@,
                        ) {
                            None => {
                                &&& *final(self) == *old(self)
                                &&& events@.len() == 3
                                &&& events@[0] is Log
                                &&& (match events@[1] {
                                    AppEvent::Log(_, l) => l is Error,
                                    _ => false,
                                })
                                &&& events@[2] is WaitForInput
                                &&& buffer_events_of(events@).len() == 0
                            },
                            Some(m) => {
                                &&& final(self).out@.len() > old(self).out@.len()
                                &&& lines_view(final(self).out@)[old(self).out@.len() as int]
                                    == replacement_spec(stmt.spec_view(), m)
                                &&& final(self).line_idx > old(self).line_idx
                                &&& events@.len() >= 1
                                &&& (final(self).phase is AwaitMenu || final(self).phase is Done)
                                &&& (final(self).phase is AwaitMenu ==> events@.last()
                                    is WaitForInput)
                                &&& (final(self).phase is Done ==> events@.last() is ReadyToQuit)
                                &&& final(self).joined == old(self).joined
                                &&& (final(self).phase is Done <==> final(self).line_idx == old(
                                    self,
                                ).joined@.len())
                                &&& ({
                                    let r = run_lines(
                                        lines_view(old(self).out@).push(
                                            replacement_spec(stmt.spec_view(), m),
                                        ),
                                        lines_view(old(self).joined@),
                                        old(self).line_idx + 1,
                                        old(self).decl_line as int,
                                        binding_views(old(self).bindings@),
                                        old(self).tables,
                                    );
                                    lines_view(final(self).out@) == r.0
                                        && final(self).line_idx as int == r.1
                                })
                                &&& events_match_edits(
                                    buffer_events_of(events@),
                                    seq![
                                        Edit::Replace(
                                            old(self).line_idx + 1 + shift_of(
                                                old(self).line_idx + 1,
                                                old(self).decl_line as int,
                                            ),
                                            replacement_spec(stmt.spec_view(), m),
                                        ),
                                    ] + run_edits(
                                        lines_view(old(self).joined@),
                                        old(self).line_idx + 1,
                                        old(self).decl_line as int,
                                        binding_views(old(self).bindings@),
                                        old(self).tables,
                                    ),
                                )
                            },
                        }
                    }
                },
                Phase::PerLine => true,
                Phase::Done => *final(self) == *old(self) && events@.len() == 0
                    && buffer_events_of(events@).len() == 0,
            }),
    {
        let raw = str_to_chars(text);
        let trimmed = trim(&raw);
        let mut events: Vec<AppEvent> = Vec::new();
        let mut ph = Phase::PerLine;
        core::mem::swap(&mut ph, &mut self.phase);
        proof {
            assert(buffer_events_of(events@) =~= Seq::<AppEvent>::empty());
        }
        match ph {
            Phase::Done => {
                self.phase = Phase::Done;
                events
            },
            Phase::PerLine => {
                self.phase = Phase::PerLine;
                events
            },
            Phase::AwaitBinding(i) => {
                let echo = trimmed.clone();
                proof {
                    assert(echo@ =~= trimmed@);
                }
                let ghost pre = events@;
                push_log(&mut events, echo, LogLevel::Info);
                proof {
                    assert(buffer_events_of(events@) =~= buffer_events_of(pre));
                }
                self.bindings.push(Binding { name: trimmed, fcp: self.candidates[i] });
                let tl = self.tables.len();
                if i + 1 < tl {
                    self.phase = Phase::AwaitBinding(i + 1);
                    self.prompt_binding(&mut events, i + 1);
                } else {
                    self.begin_join(&mut events);
                    proof {
                        let b = buffer_events_of(events@);
                        assert(b[0] == b.last());
                    }
                }
                events
            },
            Phase::AwaitDeclLine => {
                let echo = trimmed.clone();
                proof {
                    assert(echo@ =~= trimmed@);
                }
                let ghost pre = events@;
                push_log(&mut events, echo, LogLevel::Info);
                proof {
                    assert(buffer_events_of(events@) =~= buffer_events_of(pre));
                }
                match parse_usize(&trimmed) {
                    None => {
                        let msg = str_to_chars("Wrong input");
                        let ghost pr1 = events@;
                        push_log(&mut events, msg, LogLevel::Error);
                        proof {
                            assert(buffer_events_of(events@) =~= buffer_events_of(pr1));
                        }
                        let ghost pr2 = events@;
                        events.push(AppEvent::WaitForInput);
                        proof {
                            lemma_buffer_events_push(pr2, events@.last());
                        }
                        self.phase = Phase::AwaitDeclLine;
                        proof {
                            assert(*final(self) == *old(self));
                        }
                        events
                    },
                    Some(nn) => {
                        self.decl_line = nn;
                        self.phase = Phase::PerLine;
                        let ghost b0 = buffer_events_of(events@);
                        self.advance(&mut events);
                        proof {
                            let b1 = buffer_events_of(events@);
                            assert(b0.len() == 0);
                            assert(b1.skip(0) =~= b1);
                        }
                        events
                    },
                }
            },
            Phase::AwaitMenu(stmt) => {
                let echo = trimmed.clone();
                proof {
                    assert(echo@ =~= trimmed@);
                }
                let ghost pre = events@;
                push_log(&mut events, echo, LogLevel::Info);
                proof {
                    assert(buffer_events_of(events@) =~= buffer_events_of(pre));
                }
                match menu_answer(&self.tables, &self.candidates, &stmt.token, &raw) {
                    MenuReply::Invalid => {
                        let msg = str_to_chars("wrong input! try again");
                        let ghost pr1 = events@;
                        push_log(&mut events, msg, LogLevel::Error);
                        proof {
                            assert(buffer_events_of(events@) =~= buffer_events_of(pr1));
                        }
                        let ghost pr2 = events@;
                        events.push(AppEvent::WaitForInput);
                        proof {
                            lemma_buffer_events_push(pr2, events@.last());
                        }
                        self.phase = Phase::AwaitMenu(stmt);
                        proof {
                            assert(*final(self) == *old(self));
                        }
                        events
                    },
                    MenuReply::Miss(f) => {
                        let mut msg = str_to_chars("No error code for ");
                        append_chars(&mut msg, &stmt.token);
                        append_str(&mut msg, " in ");
                        let name = f.to_chars();
                        append_chars(&mut msg, &name);
                        let ghost pr1 = events@;
                        push_log(&mut events, msg, LogLevel::Error);
                        proof {
                            assert(buffer_events_of(events@) =~= buffer_events_of(pr1));
                        }
                        let ghost pr2 = events@;
                        events.push(AppEvent::WaitForInput);
                        proof {
                            lemma_buffer_events_push(pr2, events@.last());
                        }
                        self.phase = Phase::AwaitMenu(stmt);
                        proof {
                            assert(*final(self) == *old(self));
                        }
                        events
                    },
                    MenuReply::Chosen(f, template) => {
                        let mut msg = str_to_chars("Got ");
                        append_chars(&mut msg, &template);
                        append_str(&mut msg, " for ");
                        append_chars(&mut msg, &stmt.token);
                        append_str(&mut msg, " code in ");
                        let name = f.to_chars();
                        append_chars(&mut msg, &name);
                        let ghost pr1 = events@;
                        push_log(&mut events, msg, LogLevel::Info);
                        proof {
                            assert(buffer_events_of(events@) =~= buffer_events_of(pr1));
                        }
                        let line_num = self.line_idx + 1;
                        let shift: usize = if self.decl_line >= 1 && self.decl_line <= line_num {
                            1
                        } else {
                            0
                        };
                        let rec = line_num + shift;
                        self.log_replacing(&mut events, line_num);
                        let nl = build_replacement(&stmt, &template);
                        let ghost rep = Edit::Replace(
                            old(self).line_idx + 1 + shift_of(
                                old(self).line_idx + 1,
                                old(self).decl_line as int,
                            ),
                            replacement_spec(stmt.spec_view(), template@),
                        );
                        let ghost prr = events@;
                        events.push(AppEvent::ReplaceFileLine(rec, chars_to_string(&nl)));
                        proof {
                            lemma_buffer_events_push(prr, events@.last());
                            assert(buffer_events_of(prr) =~= Seq::<AppEvent>::empty());
                            assert(buffer_events_of(events@) =~= seq![events@.last()]);
                            assert(rec as int == old(self).line_idx + 1 + shift_of(
                                old(self).line_idx + 1,
                                old(self).decl_line as int,
                            ));
                            assert(events_match_edits(buffer_events_of(events@), seq![rep]));
                        }
                        let ghost nlv = nl@;
                        self.out.push(nl);
                        proof {
                            assert(lines_view(self.out@) =~= lines_view(old(self).out@).push(nlv));
                        }
                        self.line_idx += 1;
                        self.phase = Phase::PerLine;
                        let ghost b0 = buffer_events_of(events@);
                        self.advance(&mut events);
                        proof {
                            let b1 = buffer_events_of(events@);
                            let adds = run_edits(
                                lines_view(old(self).joined@),
                                old(self).line_idx + 1,
                                old(self).decl_line as int,
                                binding_views(old(self).bindings@),
                                old(self).tables,
                            );
                            assert(b0.len() == 1);
                            assert(b1.take(1) == b0);
                            assert(events_match_edits(b1.take(1), seq![rep]));
                            lemma_match_split(b1, seq![rep], adds);
                        }
                        events
                    },
                }
            },
        }
    }
}

} // verus!
