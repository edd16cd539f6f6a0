//! The presentation layer's state: the event protocol, the widget
//! focus, the input field, the live file view, and the application
//! state machine that applies events.
//!
//! Everything here is pure state transition: reading the keyboard,
//! drawing, and the process-wide log sink stay outside the crate.  The
//! worker and the presentation layer exchange [`AppEvent`] values over
//! two one-directional channels; the presentation layer applies
//! buffer-mutation events before rendering anything later, so the
//! displayed line numbers and the worker's bookkeeping never diverge.

use vstd::prelude::*;

use crate::log_list::LogLevel;
use crate::text::chars_to_string;
use crate::text::lines_spec;
use crate::text::split_lines;
use crate::text::str_to_chars;

verus! {

/// The messages exchanged between the worker, the input listener and
/// the presentation loop.
#[derive(Debug)]
pub enum AppEvent {
    /// A log message with its severity class.
    Log(String, LogLevel),
    /// Move the widget focus up.
    WidgetUp,
    /// Move the widget focus down.
    WidgetDown,
    /// One character typed into the focused widget.
    InputFieldChar(char),
    /// Erase the last character of the input field.
    InputFielddBackspace,
    /// Submit the input field's text.
    InputFieldComplete,
    /// Stop the application.
    Exit,
    /// The input listener is running; draw a first frame.
    StartRender,
    /// The worker blocks until the operator submits text.
    WaitForInput,
    /// Replace the file view's line at the given one-based position.
    ReplaceFileLine(usize, String),
    /// Insert a line into the file view at the given one-based
    /// position.
    InsertFileLine(usize, String),
    /// A completed operator submission, forwarded to the worker.
    Command(String),
    /// Carry on after a wait.
    ProceedWithInput,
    /// Move the file view's cursor to the given one-based line.
    JumpLine(usize),
    /// Show a fresh file in the file view.
    NewFile(String),
    /// Move the file view's selection down.
    FileLineDown,
    /// Move the file view's selection up.
    FileLineUp,
    /// The worker has finished; any key quits.
    ReadyToQuit,
}

/// Which widget holds the focus.
#[derive(Eq, PartialEq, Structural, Copy, Clone, Debug)]
pub enum AppWidget {
    FileViewer,
    Logger,
    InputField,
}

impl AppWidget {
    /// Move the focus one widget down, stopping at the input field.
    pub fn down(&mut self)
        ensures
            *final(self) == (match *old(self) {
                AppWidget::FileViewer => AppWidget::Logger,
                AppWidget::Logger => AppWidget::InputField,
                AppWidget::InputField => AppWidget::InputField,
            }),
    {
        *self = match self {
            AppWidget::FileViewer => AppWidget::Logger,
            AppWidget::Logger => AppWidget::InputField,
            AppWidget::InputField => AppWidget::InputField,
        };
    }

    /// Move the focus one widget up, stopping at the file view.
    pub fn up(&mut self)
        ensures
            *final(self) == (match *old(self) {
                AppWidget::FileViewer => AppWidget::FileViewer,
                AppWidget::Logger => AppWidget::FileViewer,
                AppWidget::InputField => AppWidget::Logger,
            }),
    {
        *self = match self {
            AppWidget::FileViewer => AppWidget::FileViewer,
            AppWidget::Logger => AppWidget::FileViewer,
            AppWidget::InputField => AppWidget::Logger,
        };
    }
}

/// The operator's in-progress text entry.
pub struct InputField {
    /// What has been typed since the last submission.
    pub current_text: Vec<char>,
    /// Whether the worker is waiting for a submission.
    pub active: bool,
}

/// One committed edit against the file view, positions counted from
/// one.
pub enum Edit {
    /// A new line enters at the position, shifting what follows down.
    Insert(int, Seq<char>),
    /// The line at the position is replaced in place.
    Replace(int, Seq<char>),
}

/// Whether an edit addresses a line the document has.
pub open spec fn edit_valid(doc: Seq<Seq<char>>, e: Edit) -> bool {
    match e {
        Edit::Insert(n, _) => 1 <= n <= doc.len() + 1,
        Edit::Replace(n, _) => 1 <= n <= doc.len(),
    }
}

/// The document after one edit.
pub open spec fn apply_edit(doc: Seq<Seq<char>>, e: Edit) -> Seq<Seq<char>> {
    match e {
        Edit::Insert(n, s) => doc.insert(n - 1, s),
        Edit::Replace(n, s) => doc.update(n - 1, s),
    }
}

/// Whether a whole edit sequence stays within bounds, each edit
/// against the document the previous ones left.
pub open spec fn edits_valid(doc: Seq<Seq<char>>, es: Seq<Edit>) -> bool
    decreases es.len(),
{
    if es.len() == 0 {
        true
    } else {
        edit_valid(doc, es[0]) && edits_valid(apply_edit(doc, es[0]), es.drop_first())
    }
}

/// The document after an edit sequence.
pub open spec fn apply_edits(doc: Seq<Seq<char>>, es: Seq<Edit>) -> Seq<Seq<char>>
    decreases es.len(),
{
    if es.len() == 0 {
        doc
    } else {
        apply_edits(apply_edit(doc, es[0]), es.drop_first())
    }
}

/// How many of the edits insert a line.
pub open spec fn count_inserts(es: Seq<Edit>) -> int
    decreases es.len(),
{
    if es.len() == 0 {
        0int
    } else {
        (match es[0] {
            Edit::Insert(_, _) => 1int,
            Edit::Replace(_, _) => 0int,
        }) + count_inserts(es.drop_first())
    }
}

/// The line-shift invariant: after any valid sequence of insert and
/// replace edits, the document holds exactly its original line count
/// plus one line per insertion — replacements never move a line.
pub proof fn lemma_line_shift(doc: Seq<Seq<char>>, es: Seq<Edit>)
    requires
        edits_valid(doc, es),
    ensures
        apply_edits(doc, es).len() == doc.len() + count_inserts(es),
    decreases es.len(),
{
    if es.len() > 0 {
        lemma_line_shift(apply_edit(doc, es[0]), es.drop_first());
    }
}

/// The live, line-addressable copy of the target file, with the two
/// presentation cursors.
pub struct FileViewer {
    /// The lines as currently edited.
    pub contents: Vec<String>,
    /// The line the worker last worked on, counted from one.
    pub current_line: usize,
    /// The line shown as chosen, counted from one.
    pub selected_line: usize,
    /// The zero-based index the list widget highlights, if any.
    pub selected: Option<usize>,
}

/// The views of a sequence of strings.
pub open spec fn strings_view(vs: Seq<String>) -> Seq<Seq<char>> {
    vs.map_values(|v: String| v@)
}

/// The file view after the highlight moves one line down.
pub open spec fn nav_next(fv: FileViewer) -> FileViewer {
    FileViewer {
        selected: Some(
            match fv.selected {
                Some(i) => if i + 1 >= fv.contents@.len() {
                    0usize
                } else {
                    (i + 1) as usize
                },
                None => fv.current_line,
            },
        ),
        ..fv
    }
}

/// The file view after the highlight moves one line up.
pub open spec fn nav_prev(fv: FileViewer) -> FileViewer {
    FileViewer {
        selected: Some(
            match fv.selected {
                Some(i) => if i == 0 {
                    (fv.contents@.len() - 1) as usize
                } else {
                    (i - 1) as usize
                },
                None => fv.current_line,
            },
        ),
        ..fv
    }
}

impl FileViewer {
    /// The lines as sequences of characters.
    pub open spec fn doc(&self) -> Seq<Seq<char>> {
        strings_view(self.contents@)
    }

    /// An empty view.
    pub fn new() -> (r: Self)
        ensures
            r.doc() == Seq::<Seq<char>>::empty(),
            r.current_line == 1,
            r.selected_line == 1,
            r.selected is None,
    {
        let r = FileViewer {
            contents: Vec::new(),
            current_line: 1,
            selected_line: 1,
            selected: None,
        };
        proof {
            assert(r.doc() =~= Seq::<Seq<char>>::empty());
        }
        r
    }

    /// Reset both cursors and drop the highlight.
    pub fn clear(&mut self)
        ensures
            final(self).contents == old(self).contents,
            final(self).current_line == 1,
            final(self).selected_line == 1,
            final(self).selected is None,
    {
        self.current_line = 1;
        self.selected_line = 1;
        self.selected = None;
    }

    /// Highlight the chosen line.
    pub fn select_line(&mut self)
        requires
            old(self).selected_line >= 1,
        ensures
            *final(self) == (FileViewer {
                selected: Some((old(self).selected_line - 1) as usize),
                ..*old(self)
            }),
    {
        self.selected = Some(self.selected_line - 1);
    }

    /// Move both cursors to a line, clamping past the end of the
    /// file, and highlight it.
    pub fn goto_line(&mut self, line: usize)
        requires
            line >= 1,
            old(self).contents@.len() >= 1,
        ensures
            final(self).contents == old(self).contents,
            final(self).current_line == final(self).selected_line,
            final(self).selected_line == (if line > old(self).contents@.len() {
                old(self).contents@.len() as usize
            } else {
                line
            }),
            final(self).selected == Some((final(self).selected_line - 1) as usize),
    {
        if line > self.contents.len() {
            self.selected_line = self.contents.len();
            self.current_line = self.contents.len();
        } else {
            self.selected_line = line;
            self.current_line = line;
        }
        self.select_line();
    }

    /// Whether moving the highlight cannot step out of an empty file.
    pub open spec fn nav_safe(&self) -> bool {
        self.selected is Some ==> self.contents@.len() >= 1
    }

    /// Move the highlight one line down, wrapping at the end; an
    /// unset highlight starts from the worker's line.
    pub fn next(&mut self)
        requires
            old(self).nav_safe(),
        ensures
            *final(self) == nav_next(*old(self)),
    {
        let i = match self.selected {
            Some(i) => if i >= self.contents.len() - 1 {
                0
            } else {
                i + 1
            },
            None => self.current_line,
        };
        self.selected = Some(i);
    }

    /// Move the highlight one line up, wrapping at the start; an
    /// unset highlight starts from the worker's line.
    pub fn previous(&mut self)
        requires
            old(self).nav_safe(),
        ensures
            *final(self) == nav_prev(*old(self)),
    {
        let i = match self.selected {
            Some(i) => if i == 0 {
                self.contents.len() - 1
            } else {
                i - 1
            },
            None => self.current_line,
        };
        self.selected = Some(i);
    }

    /// Replace the line at a one-based position.
    pub fn replace_line(&mut self, n: usize, line: String)
        requires
            1 <= n <= old(self).contents@.len(),
        ensures
            final(self).doc() == apply_edit(old(self).doc(), Edit::Replace(n as int, line@)),
            final(self).current_line == old(self).current_line,
            final(self).selected_line == old(self).selected_line,
            final(self).selected == old(self).selected,
    {
        let ghost lv = line@;
        self.contents.remove(n - 1);
        self.contents.insert(n - 1, line);
        proof {
            assert(final(self).doc() =~= old(self).doc().update(n - 1, lv));
        }
    }

    /// Insert a line at a one-based position, shifting what follows
    /// down.
    pub fn insert_line(&mut self, n: usize, line: String)
        requires
            1 <= n <= old(self).contents@.len() + 1,
        ensures
            final(self).doc() == apply_edit(old(self).doc(), Edit::Insert(n as int, line@)),
            final(self).current_line == old(self).current_line,
            final(self).selected_line == old(self).selected_line,
            final(self).selected == old(self).selected,
    {
        let ghost lv = line@;
        self.contents.insert(n - 1, line);
        proof {
            assert(final(self).doc() =~= old(self).doc().insert(n - 1, lv));
        }
    }

    /// Show a fresh text, split into lines, with both cursors reset.
    pub fn new_file(&mut self, text: &str)
        ensures
            final(self).doc() == lines_spec(text@),
            final(self).current_line == 1,
            final(self).selected_line == 1,
            final(self).selected is None,
    {
        let chars = str_to_chars(text);
        let lines = split_lines(&chars);
        let mut contents: Vec<String> = Vec::new();
        let n = lines.len();
        let mut i: usize = 0;
        while i < n
            invariant
                0 <= i <= n,
                n == lines@.len(),
                strings_view(contents@) == crate::text::lines_view(lines@).take(i as int),
            decreases n - i,
        {
            let s = chars_to_string(&lines[i]);
            let ghost prev = contents@;
            contents.push(s);
            proof {
                let lvw = crate::text::lines_view(lines@);
                assert(contents@.last()@ == lines@[i as int]@);
                assert(strings_view(prev).len() == prev.len());
                assert(prev.len() == i);
                assert forall|k: int| 0 <= k < i implies strings_view(contents@)[k] == lvw.take(
                    i as int + 1,
                )[k] by {
                    assert(strings_view(prev)[k] == prev[k]@);
                    assert(contents@[k] == prev[k]);
                    assert(strings_view(prev)[k] == lvw.take(i as int)[k]);
                    assert(lvw.take(i as int)[k] == lvw[k]);
                }
                assert(strings_view(contents@) =~= lvw.take(i as int + 1));
            }
            i += 1;
        }
        proof {
            assert(crate::text::lines_view(lines@).take(n as int) =~= crate::text::lines_view(
                lines@,
            ));
        }
        self.contents = contents;
        self.clear();
    }
}

/// What the presentation loop does after applying one event.
pub enum AppReaction {
    /// Keep going.
    Continue,
    /// Leave the loop.
    Stop,
    /// Forward a completed submission to the worker.
    Submit(String),
}

/// The presentation layer's whole state.
pub struct App {
    /// Which widget holds the focus.
    pub current_widget: AppWidget,
    /// The live copy of the target file.
    pub file_viewer: FileViewer,
    /// The operator's in-progress text entry.
    pub input_field: InputField,
    /// Whether the worker announced it has finished.
    pub ready_to_quit: bool,
}

impl App {
    /// The state before any event: empty file view, empty inactive
    /// input field, focus on the input field.
    pub fn new() -> (r: Self)
        ensures
            r.current_widget == AppWidget::InputField,
            r.file_viewer.doc() == Seq::<Seq<char>>::empty(),
            r.file_viewer.current_line == 1,
            r.file_viewer.selected_line == 1,
            r.file_viewer.selected is None,
            r.input_field.current_text@ == Seq::<char>::empty(),
            !r.input_field.active,
            !r.ready_to_quit,
    {
        App {
            current_widget: AppWidget::InputField,
            file_viewer: FileViewer::new(),
            input_field: InputField { current_text: Vec::new(), active: false },
            ready_to_quit: false,
        }
    }

    /// The events an application state can take without stepping out
    /// of bounds.
    pub open spec fn event_safe(self, event: AppEvent) -> bool {
        match event {
            AppEvent::InputFieldChar(c) => (!self.ready_to_quit && self.current_widget
                == AppWidget::FileViewer && (c == 'j' || c == 'k'))
                ==> self.file_viewer.nav_safe(),
            AppEvent::FileLineDown => self.file_viewer.nav_safe(),
            AppEvent::FileLineUp => self.file_viewer.nav_safe(),
            AppEvent::JumpLine(l) => l >= 1 && self.file_viewer.contents@.len() >= 1,
            AppEvent::ReplaceFileLine(n, _) => 1 <= n <= self.file_viewer.contents@.len(),
            AppEvent::InsertFileLine(n, _) => 1 <= n <= self.file_viewer.contents@.len() + 1,
            _ => true,
        }
    }

    /// Apply one event to the presentation state.  Buffer mutations
    /// take effect at once, so everything rendered later sees them;
    /// log events go to the process-wide sink outside this crate and
    /// leave the state as it is.
    pub fn apply_event(&mut self, event: AppEvent) -> (r: AppReaction)
        requires
            old(self).event_safe(event),
        ensures
            ({
                let pre = *old(self);
                match event {
                    AppEvent::StartRender => *final(self) == pre && r is Continue,
                    AppEvent::ProceedWithInput => *final(self) == pre && r is Continue,
                    AppEvent::Command(_) => *final(self) == pre && r is Continue,
                    AppEvent::Log(_, _) => *final(self) == pre && r is Continue,
                    AppEvent::WaitForInput => *final(self) == (App {
                        input_field: InputField { active: true, ..pre.input_field },
                        ..pre
                    }) && r is Continue,
                    AppEvent::Exit => *final(self) == pre && r is Stop,
                    AppEvent::ReadyToQuit => *final(self) == (App {
                        ready_to_quit: true,
                        ..pre
                    }) && r is Continue,
                    AppEvent::WidgetUp => *final(self) == (App {
                        current_widget: match pre.current_widget {
                            AppWidget::FileViewer => AppWidget::FileViewer,
                            AppWidget::Logger => AppWidget::FileViewer,
                            AppWidget::InputField => AppWidget::Logger,
                        },
                        ..pre
                    }) && r is Continue,
                    AppEvent::WidgetDown => *final(self) == (App {
                        current_widget: match pre.current_widget {
                            AppWidget::FileViewer => AppWidget::Logger,
                            AppWidget::Logger => AppWidget::InputField,
                            AppWidget::InputField => AppWidget::InputField,
                        },
                        ..pre
                    }) && r is Continue,
                    AppEvent::InputFielddBackspace => {
                        &&& final(self).current_widget == pre.current_widget
                        &&& final(self).file_viewer == pre.file_viewer
                        &&& final(self).ready_to_quit == pre.ready_to_quit
                        &&& final(self).input_field.active == pre.input_field.active
                        &&& final(self).input_field.current_text@ == (
                        if pre.input_field.current_text@.len() > 0 {
                            pre.input_field.current_text@.drop_last()
                        } else {
                            pre.input_field.current_text@
                        })
                        &&& r is Continue
                    },
                    AppEvent::InputFieldComplete => {
                        if pre.input_field.current_text@.len() > 0 && pre.input_field.active {
                            &&& (match r {
                                AppReaction::Submit(t) => t@ == pre.input_field.current_text@,
                                _ => false,
                            })
                            &&& final(self).current_widget == pre.current_widget
                            &&& final(self).file_viewer == pre.file_viewer
                            &&& final(self).ready_to_quit == pre.ready_to_quit
                            &&& !final(self).input_field.active
                            &&& final(self).input_field.current_text@ == Seq::<char>::empty()
                        } else {
                            *final(self) == pre && r is Continue
                        }
                    },
                    AppEvent::InputFieldChar(c) => {
                        if pre.ready_to_quit {
                            *final(self) == pre && r is Stop
                        } else {
                            match pre.current_widget {
                                AppWidget::InputField => {
                                    &&& final(self).current_widget == pre.current_widget
                                    &&& final(self).file_viewer == pre.file_viewer
                                    &&& final(self).ready_to_quit == pre.ready_to_quit
                                    &&& final(self).input_field.active == pre.input_field.active
                                    &&& final(self).input_field.current_text@
                                        == pre.input_field.current_text@.push(c)
                                    &&& r is Continue
                                },
                                AppWidget::FileViewer => {
                                    &&& *final(self) == (App {
                                        file_viewer: if c == 'k' {
                                            nav_prev(pre.file_viewer)
                                        } else if c == 'j' {
                                            nav_next(pre.file_viewer)
                                        } else {
                                            pre.file_viewer
                                        },
                                        ..pre
                                    })
                                    &&& r is Continue
                                },
                                AppWidget::Logger => *final(self) == pre && r is Continue,
                            }
                        }
                    },
                    AppEvent::JumpLine(l) => {
                        &&& final(self).current_widget == pre.current_widget
                        &&& final(self).input_field == pre.input_field
                        &&& final(self).ready_to_quit == pre.ready_to_quit
                        &&& final(self).file_viewer.contents == pre.file_viewer.contents
                        &&& final(self).file_viewer.current_line == final(self).file_viewer.selected_line
                        &&& final(self).file_viewer.selected_line == (
                        if l > pre.file_viewer.contents@.len() {
                            pre.file_viewer.contents@.len() as usize
                        } else {
                            l
                        })
                        &&& final(self).file_viewer.selected == Some(
                            (final(self).file_viewer.selected_line - 1) as usize,
                        )
                        &&& r is Continue
                    },
                    AppEvent::NewFile(text) => {
                        &&& final(self).current_widget == pre.current_widget
                        &&& final(self).input_field == pre.input_field
                        &&& final(self).ready_to_quit == pre.ready_to_quit
                        &&& final(self).file_viewer.doc() == lines_spec(text@)
                        &&& final(self).file_viewer.current_line == 1
                        &&& final(self).file_viewer.selected_line == 1
                        &&& final(self).file_viewer.selected is None
                        &&& r is Continue
                    },
                    AppEvent::ReplaceFileLine(n, line) => {
                        &&& final(self).current_widget == pre.current_widget
                        &&& final(self).input_field == pre.input_field
                        &&& final(self).ready_to_quit == pre.ready_to_quit
                        &&& final(self).file_viewer.doc() == apply_edit(
                            pre.file_viewer.doc(),
                            Edit::Replace(n as int, line@),
                        )
                        &&& final(self).file_viewer.current_line == pre.file_viewer.current_line
                        &&& final(self).file_viewer.selected_line == pre.file_viewer.selected_line
                        &&& final(self).file_viewer.selected == pre.file_viewer.selected
                        &&& r is Continue
                    },
                    AppEvent::InsertFileLine(n, line) => {
                        &&& final(self).current_widget == pre.current_widget
                        &&& final(self).input_field == pre.input_field
                        &&& final(self).ready_to_quit == pre.ready_to_quit
                        &&& final(self).file_viewer.doc() == apply_edit(
                            pre.file_viewer.doc(),
                            Edit::Insert(n as int, line@),
                        )
                        &&& final(self).file_viewer.current_line == pre.file_viewer.current_line
                        &&& final(self).file_viewer.selected_line == pre.file_viewer.selected_line
                        &&& final(self).file_viewer.selected == pre.file_viewer.selected
                        &&& r is Continue
                    },
                    AppEvent::FileLineDown => *final(self) == (App {
                        file_viewer: nav_next(pre.file_viewer),
                        ..pre
                    }) && r is Continue,
                    AppEvent::FileLineUp => *final(self) == (App {
                        file_viewer: nav_prev(pre.file_viewer),
                        ..pre
                    }) && r is Continue,
                }
            }),
    {
        match event {
            AppEvent::StartRender => AppReaction::Continue,
            AppEvent::ProceedWithInput => AppReaction::Continue,
            AppEvent::Command(_) => AppReaction::Continue,
            AppEvent::Log(_, _) => AppReaction::Continue,
            AppEvent::WaitForInput => {
                self.input_field.active = true;
                AppReaction::Continue
            },
            AppEvent::Exit => AppReaction::Stop,
            AppEvent::ReadyToQuit => {
                self.ready_to_quit = true;
                AppReaction::Continue
            },
            AppEvent::WidgetUp => {
                self.current_widget.up();
                AppReaction::Continue
            },
            AppEvent::WidgetDown => {
                self.current_widget.down();
                AppReaction::Continue
            },
            AppEvent::InputFielddBackspace => {
                if self.input_field.current_text.len() > 0 {
                    self.input_field.current_text.pop();
                }
                AppReaction::Continue
            },
            AppEvent::InputFieldComplete => {
                if self.input_field.current_text.len() > 0 && self.input_field.active {
                    let text = chars_to_string(&self.input_field.current_text);
                    self.input_field.current_text = Vec::new();
                    self.input_field.active = false;
                    AppReaction::Submit(text)
                } else {
                    AppReaction::Continue
                }
            },
            AppEvent::InputFieldChar(c) => {
                if self.ready_to_quit {
                    AppReaction::Stop
                } else {
                    match self.current_widget {
                        AppWidget::InputField => {
                            self.input_field.current_text.push(c);
                        },
                        AppWidget::FileViewer => {
                            if c == 'k' {
                                self.file_viewer.previous();
                            } else if c == 'j' {
                                self.file_viewer.next();
                            }
                        },
                        AppWidget::Logger => {},
                    }
                    AppReaction::Continue
                }
            },
            AppEvent::JumpLine(l) => {
                self.file_viewer.goto_line(l);
                AppReaction::Continue
            },
            AppEvent::NewFile(text) => {
                self.file_viewer.new_file(text.as_str());
                AppReaction::Continue
            },
            AppEvent::ReplaceFileLine(n, line) => {
                self.file_viewer.replace_line(n, line);
                AppReaction::Continue
            },
            AppEvent::InsertFileLine(n, line) => {
                self.file_viewer.insert_line(n, line);
                AppReaction::Continue
            },
            AppEvent::FileLineDown => {
                self.file_viewer.next();
                AppReaction::Continue
            },
            AppEvent::FileLineUp => {
                self.file_viewer.previous();
                AppReaction::Continue
            },
        }
    }
}

} // verus!
