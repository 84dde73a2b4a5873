use vstd::prelude::*;
use vstd::string::StringExecFns;
use crate::events::InterfaceCommand;
use crate::events::InterfaceCommandModel;
use crate::events::KeyEvent;
use crate::matcher::MatchModel;
use crate::matcher::MatchResult;

verus! {

pub const SEARCH_PROMPT: &'static str = "Search: > ";

/// One primitive operation on the terminal device. The session computes
/// sequences of these; performing them is the caller's concern.
#[derive(Debug, PartialEq, Eq, Clone)]
pub enum TermOp {
    Newline,
    Goto(u16, u16),
    ClearLine,
    Text(String),
    SaveCursor,
    RestoreCursor,
    EnterRaw,
    ExitRaw,
}

/// Mathematical value of a `TermOp`; `Goto` carries (column, row).
pub enum TermOpModel {
    Newline,
    Goto(int, int),
    ClearLine,
    Text(Seq<char>),
    SaveCursor,
    RestoreCursor,
    EnterRaw,
    ExitRaw,
}

impl DeepView for TermOp {
    type V = TermOpModel;

    open spec fn deep_view(&self) -> TermOpModel {
        match self {
            TermOp::Newline => TermOpModel::Newline,
            TermOp::Goto(c, r) => TermOpModel::Goto(*c as int, *r as int),
            TermOp::ClearLine => TermOpModel::ClearLine,
            TermOp::Text(t) => TermOpModel::Text(t@),
            TermOp::SaveCursor => TermOpModel::SaveCursor,
            TermOp::RestoreCursor => TermOpModel::RestoreCursor,
            TermOp::EnterRaw => TermOpModel::EnterRaw,
            TermOp::ExitRaw => TermOpModel::ExitRaw,
        }
    }
}

/// Mathematical state of the renderer: the viewport height and the anchor
/// row every redraw is offset from.
pub struct InterfaceModel {
    pub lines: int,
    pub base_y: int,
}

/// The prompt line's text for a query.
pub open spec fn prompt_text(q: Seq<char>) -> Seq<char> {
    SEARCH_PROMPT@ + q
}

/// Redrawing the prompt row: move there, clear it, draw the prompt.
pub open spec fn query_ops(m: InterfaceModel, q: Seq<char>) -> Seq<TermOpModel> {
    seq![
        TermOpModel::Goto(1, m.base_y),
        TermOpModel::ClearLine,
        TermOpModel::Text(prompt_text(q)),
    ]
}

/// Redrawing viewport rows `i..=lines`: each row is cleared, then drawn
/// with the result of that rank if one exists, else left blank.
pub open spec fn rows_ops(m: InterfaceModel, results: Seq<MatchModel>, i: int) -> Seq<TermOpModel>
    decreases m.lines + 1 - i,
{
    if i < 1 || i > m.lines {
        Seq::empty()
    } else {
        seq![TermOpModel::Goto(1, m.base_y + i), TermOpModel::ClearLine] + (if i - 1
            < results.len() {
            seq![TermOpModel::Text(results[i - 1].line)]
        } else {
            Seq::empty()
        }) + rows_ops(m, results, i + 1)
    }
}

/// A results redraw: cursor saved, every viewport row redrawn, cursor
/// restored, so the prompt's cursor placement is never disturbed.
pub open spec fn results_ops(m: InterfaceModel, results: Seq<MatchModel>) -> Seq<TermOpModel> {
    seq![TermOpModel::SaveCursor] + rows_ops(m, results, 1) + seq![TermOpModel::RestoreCursor]
}

/// Clearing rows `i..=lines` of the session's screen area, prompt row
/// included (row 0).
pub open spec fn clear_rows(m: InterfaceModel, i: int) -> Seq<TermOpModel>
    decreases m.lines + 1 - i,
{
    if i < 0 || i > m.lines {
        Seq::empty()
    } else {
        seq![TermOpModel::Goto(1, m.base_y + i), TermOpModel::ClearLine] + clear_rows(m, i + 1)
    }
}

/// The stop path: clear every viewport row and the prompt row, then leave
/// the cursor on the prompt row.
pub open spec fn cleanup_ops(m: InterfaceModel) -> Seq<TermOpModel> {
    clear_rows(m, 0) + seq![TermOpModel::Goto(1, m.base_y)]
}

/// One renderer step in the Ready state: results are redrawn; a query edit
/// redraws the prompt and is forwarded to the coordinator; Stop cleans the
/// screen and ends the session.
pub open spec fn session_step(m: InterfaceModel, cmd: InterfaceCommandModel) -> (
    Seq<TermOpModel>,
    Seq<Seq<char>>,
    bool,
) {
    match cmd {
        InterfaceCommandModel::Results(r) => (results_ops(m, r), Seq::empty(), false),
        InterfaceCommandModel::Query(q) => (query_ops(m, q), seq![q], false),
        InterfaceCommandModel::Stop => (cleanup_ops(m), Seq::empty(), true),
    }
}

/// The renderer loop over its inbound messages, stopping at Stop: the
/// terminal operations emitted, the queries forwarded, and whether the
/// session reached the Stopped state.
pub open spec fn session_steps(m: InterfaceModel, cmds: Seq<InterfaceCommandModel>) -> (
    Seq<TermOpModel>,
    Seq<Seq<char>>,
    bool,
)
    decreases cmds.len(),
{
    if cmds.len() == 0 {
        (Seq::empty(), Seq::empty(), false)
    } else {
        let (o1, f1, st) = session_step(m, cmds[0]);
        if st {
            (o1, f1, true)
        } else {
            let (o2, f2, st2) = session_steps(m, cmds.drop_first());
            (o1 + o2, f1 + f2, st2)
        }
    }
}

/// The whole session: raw mode is entered once at the start and exited
/// once when the loop ends, on the Stop path and on channel exhaustion
/// alike.
pub open spec fn session_ops(m: InterfaceModel, cmds: Seq<InterfaceCommandModel>) -> Seq<
    TermOpModel,
> {
    seq![TermOpModel::EnterRaw] + session_steps(m, cmds).0 + seq![TermOpModel::ExitRaw]
}

/// The queries a step forwards, as a sequence of zero or one.
pub open spec fn fwd_seq(o: Option<String>) -> Seq<Seq<char>> {
    match o {
        None => Seq::empty(),
        Some(q) => seq![q@],
    }
}

/// The renderer half of the terminal session: computes every redraw as a
/// sequence of terminal operations.
pub struct Interface {
    lines: u16,
    base_y: u16,
}

impl DeepView for Interface {
    type V = InterfaceModel;

    closed spec fn deep_view(&self) -> InterfaceModel {
        InterfaceModel { lines: self.lines as int, base_y: self.base_y as int }
    }
}

impl Interface {
    /// Every row the session touches fits the terminal's coordinate range.
    pub open spec fn wf(&self) -> bool {
        self.deep_view().base_y + self.deep_view().lines + 1 <= u16::MAX
    }

    pub fn new(height_lines: u16) -> (r: Interface)
        requires
            height_lines < u16::MAX,
        ensures
            r.deep_view() == (InterfaceModel { lines: height_lines as int, base_y: 0 as int }),
            r.wf(),
    {
        Interface { lines: height_lines, base_y: 0 }
    }

    /// The blank lines to emit before the cursor position is queried, so
    /// the viewport's rows exist on screen.
    pub fn reserve_rows(&self) -> (ops: Vec<TermOp>)
        requires
            self.wf(),
        ensures
            ops.deep_view() == Seq::new(
                (self.deep_view().lines + 1) as nat,
                |i: int| TermOpModel::Newline,
            ),
    {
        let mut ops: Vec<TermOp> = Vec::new();
        let mut i: u16 = 0;
        while i <= self.lines
            invariant
                self.wf(),
                0 <= i <= self.lines + 1,
                ops.deep_view().len() == i as int,
                forall|k: int| 0 <= k < i ==> ops.deep_view()[k] == TermOpModel::Newline,
            decreases self.lines + 1 - i,
        {
            let ghost pre = ops.deep_view();
            ops.push(TermOp::Newline);
            proof {
                assert(ops.deep_view() =~= pre.push(TermOpModel::Newline));
            }
            i = i + 1;
        }
        proof {
            assert(ops.deep_view() =~= Seq::new(
                (self.deep_view().lines + 1) as nat,
                |k: int| TermOpModel::Newline,
            ));
        }
        ops
    }

    /// Derive the anchor row from the cursor row reported after the
    /// reserve, and draw the empty prompt: the transition to Ready.
    pub fn init(&mut self, cursor_y: u16) -> (ops: Vec<TermOp>)
        requires
            old(self).deep_view().lines + 1 <= cursor_y,
        ensures
            final(self).deep_view().lines == old(self).deep_view().lines,
            final(self).deep_view().base_y == cursor_y - old(self).deep_view().lines - 1,
            final(self).wf(),
            ops.deep_view() == query_ops(final(self).deep_view(), Seq::<char>::empty()),
    {
        self.base_y = cursor_y - self.lines - 1;
        let ops = self.update_query("");
        proof {
            reveal_strlit("");
            assert(""@ =~= Seq::<char>::empty());
        }
        ops
    }

    /// The prompt-row redraw for a query, as `query_ops` states.
    pub fn update_query(&self, query: &str) -> (ops: Vec<TermOp>)
        ensures
            ops.deep_view() == query_ops(self.deep_view(), query@),
    {
        let mut full = String::from_str(SEARCH_PROMPT);
        full.append(query);
        let mut ops: Vec<TermOp> = Vec::new();
        ops.push(TermOp::Goto(1, self.base_y));
        ops.push(TermOp::ClearLine);
        ops.push(TermOp::Text(full));
        proof {
            assert(ops.deep_view() =~= query_ops(self.deep_view(), query@));
        }
        ops
    }

    /// The full-viewport redraw for a result set, as `results_ops` states.
    pub fn update_results(&self, results: &Vec<MatchResult>) -> (ops: Vec<TermOp>)
        requires
            self.wf(),
        ensures
            ops.deep_view() == results_ops(self.deep_view(), results.deep_view()),
    {
        let ghost m = self.deep_view();
        let ghost rs = results.deep_view();
        let mut ops: Vec<TermOp> = Vec::new();
        ops.push(TermOp::SaveCursor);
        let mut i: u16 = 1;
        proof {
            assert(ops.deep_view() =~= seq![TermOpModel::SaveCursor]);
            assert(seq![TermOpModel::SaveCursor] + rows_ops(m, rs, 1) =~= ops.deep_view()
                + rows_ops(m, rs, 1));
        }
        while i <= self.lines
            invariant
                1 <= i <= self.lines + 1,
                self.wf(),
                m == self.deep_view(),
                rs == results.deep_view(),
                seq![TermOpModel::SaveCursor] + rows_ops(m, rs, 1) == ops.deep_view() + rows_ops(
                    m,
                    rs,
                    i as int,
                ),
            decreases self.lines + 1 - i,
        {
            let ghost pre = ops.deep_view();
            ops.push(TermOp::Goto(1, self.base_y + i));
            ops.push(TermOp::ClearLine);
            let idx = (i - 1) as usize;
            if idx < results.len() {
                ops.push(TermOp::Text(results[idx].line.clone()));
                proof {
                    assert(ops.deep_view() =~= pre + seq![
                        TermOpModel::Goto(1, m.base_y + i),
                        TermOpModel::ClearLine,
                        TermOpModel::Text(rs[idx as int].line),
                    ]);
                }
            } else {
                proof {
                    assert(ops.deep_view() =~= pre + seq![
                        TermOpModel::Goto(1, m.base_y + i),
                        TermOpModel::ClearLine,
                    ]);
                }
            }
            proof {
                assert(rows_ops(m, rs, i as int) == seq![
                    TermOpModel::Goto(1, m.base_y + i),
                    TermOpModel::ClearLine,
                ] + (if i - 1 < rs.len() {
                    seq![TermOpModel::Text(rs[i - 1].line)]
                } else {
                    Seq::<TermOpModel>::empty()
                }) + rows_ops(m, rs, i + 1));
                assert(pre + rows_ops(m, rs, i as int) =~= ops.deep_view() + rows_ops(
                    m,
                    rs,
                    i + 1,
                ));
            }
            i = i + 1;
        }
        let ghost before_restore = ops.deep_view();
        ops.push(TermOp::RestoreCursor);
        proof {
            assert(rows_ops(m, rs, i as int) =~= Seq::<TermOpModel>::empty());
            assert(before_restore =~= seq![TermOpModel::SaveCursor] + rows_ops(m, rs, 1));
            assert(ops.deep_view() =~= results_ops(m, rs));
        }
        ops
    }

    /// The stop path's screen restore, as `cleanup_ops` states.
    pub fn cleanup(&self) -> (ops: Vec<TermOp>)
        requires
            self.wf(),
        ensures
            ops.deep_view() == cleanup_ops(self.deep_view()),
    {
        let ghost m = self.deep_view();
        let mut ops: Vec<TermOp> = Vec::new();
        let mut i: u16 = 0;
        proof {
            assert(clear_rows(m, 0) =~= ops.deep_view() + clear_rows(m, 0));
        }
        while i <= self.lines
            invariant
                0 <= i <= self.lines + 1,
                self.wf(),
                m == self.deep_view(),
                clear_rows(m, 0) == ops.deep_view() + clear_rows(m, i as int),
            decreases self.lines + 1 - i,
        {
            let ghost pre = ops.deep_view();
            ops.push(TermOp::Goto(1, self.base_y + i));
            ops.push(TermOp::ClearLine);
            proof {
                assert(ops.deep_view() =~= pre + seq![
                    TermOpModel::Goto(1, m.base_y + i),
                    TermOpModel::ClearLine,
                ]);
                assert(clear_rows(m, i as int) == seq![
                    TermOpModel::Goto(1, m.base_y + i),
                    TermOpModel::ClearLine,
                ] + clear_rows(m, i + 1));
                assert(pre + clear_rows(m, i as int) =~= ops.deep_view() + clear_rows(m, i + 1));
            }
            i = i + 1;
        }
        let ghost before_goto = ops.deep_view();
        ops.push(TermOp::Goto(1, self.base_y));
        proof {
            assert(clear_rows(m, i as int) =~= Seq::<TermOpModel>::empty());
            assert(before_goto =~= clear_rows(m, 0));
            assert(ops.deep_view() =~= cleanup_ops(m));
        }
        ops
    }

    /// One renderer step, as `session_step` states: the operations to
    /// perform, the query to forward to the coordinator, and whether the
    /// session stops.
    pub fn handle(&self, cmd: InterfaceCommand) -> (r: (Vec<TermOp>, Option<String>, bool))
        requires
            self.wf(),
        ensures
            r.0.deep_view() == session_step(self.deep_view(), cmd.deep_view()).0,
            fwd_seq(r.1) == session_step(self.deep_view(), cmd.deep_view()).1,
            r.2 == session_step(self.deep_view(), cmd.deep_view()).2,
    {
        match cmd {
            InterfaceCommand::Results(results) => {
                let ops = self.update_results(&results);
                (ops, None, false)
            },
            InterfaceCommand::Query(q) => {
                let ops = self.update_query(q.as_str());
                proof {
                    assert(fwd_seq(Some(q)) =~= seq![q@]);
                }
                (ops, Some(q), false)
            },
            InterfaceCommand::Stop => {
                let ops = self.cleanup();
                (ops, None, true)
            },
        }
    }

    /// The renderer loop: processes messages in arrival order until Stop,
    /// as `session_ops` and `session_steps` state. The first operation
    /// enters raw mode and the last leaves it, on every path.
    pub fn events_loop(&self, cmds: Vec<InterfaceCommand>) -> (r: (Vec<TermOp>, Vec<String>))
        requires
            self.wf(),
        ensures
            r.0.deep_view() == session_ops(self.deep_view(), cmds.deep_view()),
            r.1.deep_view() == session_steps(self.deep_view(), cmds.deep_view()).1,
    {
        let ghost m = self.deep_view();
        let ghost c0 = cmds.deep_view();
        let mut rest = cmds;
        let mut ops: Vec<TermOp> = Vec::new();
        let mut forwards: Vec<String> = Vec::new();
        ops.push(TermOp::EnterRaw);
        let mut done = false;
        proof {
            assert(ops.deep_view() =~= seq![TermOpModel::EnterRaw]);
            assert(forwards.deep_view() =~= Seq::<Seq<char>>::empty());
        }
        while !done && rest.len() > 0
            invariant
                self.wf(),
                m == self.deep_view(),
                done ==> seq![TermOpModel::EnterRaw] + session_steps(m, c0).0 == ops.deep_view()
                    && session_steps(m, c0).1 == forwards.deep_view(),
                !done ==> seq![TermOpModel::EnterRaw] + session_steps(m, c0).0 == ops.deep_view()
                    + session_steps(m, rest.deep_view()).0 && session_steps(m, c0).1
                    == forwards.deep_view() + session_steps(m, rest.deep_view()).1,
            decreases rest.len(),
        {
            let ghost pre_cmds = rest.deep_view();
            let ghost pre_ops = ops.deep_view();
            let ghost pre_fwd = forwards.deep_view();
            let cmd = rest.remove(0);
            proof {
                assert(rest.deep_view() =~= pre_cmds.drop_first());
                assert(cmd.deep_view() == pre_cmds[0]);
            }
            let (mut step_ops, forward, stop) = self.handle(cmd);
            let ghost so = step_ops.deep_view();
            ops.append(&mut step_ops);
            proof {
                assert(ops.deep_view() =~= pre_ops + so);
            }
            match forward {
                Some(q) => {
                    forwards.push(q);
                    proof {
                        assert(forwards.deep_view() =~= pre_fwd + fwd_seq(Some(q)));
                    }
                },
                None => {
                    proof {
                        assert(forwards.deep_view() =~= pre_fwd + fwd_seq(None::<String>));
                    }
                },
            }
            done = stop;
            proof {
                let (o1, f1, st) = session_step(m, pre_cmds[0]);
                if st {
                    assert(session_steps(m, pre_cmds).0 == o1);
                    assert(session_steps(m, pre_cmds).1 == f1);
                    assert(pre_ops + (o1 + session_steps(m, pre_cmds).0) =~= pre_ops + o1 + session_steps(
                        m,
                        pre_cmds,
                    ).0);
                } else {
                    assert(session_steps(m, pre_cmds).0 == o1 + session_steps(
                        m,
                        pre_cmds.drop_first(),
                    ).0);
                    assert(session_steps(m, pre_cmds).1 == f1 + session_steps(
                        m,
                        pre_cmds.drop_first(),
                    ).1);
                    assert(pre_ops + (o1 + session_steps(m, pre_cmds.drop_first()).0) =~= (pre_ops
                        + o1) + session_steps(m, pre_cmds.drop_first()).0);
                    assert(pre_fwd + (f1 + session_steps(m, pre_cmds.drop_first()).1) =~= (pre_fwd
                        + f1) + session_steps(m, pre_cmds.drop_first()).1);
                }
            }
        }
        proof {
            if !done {
                assert(rest.deep_view().len() == 0);
                assert(session_steps(m, rest.deep_view()).0 =~= Seq::<TermOpModel>::empty());
                assert(session_steps(m, rest.deep_view()).1 =~= Seq::<Seq<char>>::empty());
                assert(ops.deep_view() + Seq::<TermOpModel>::empty() =~= ops.deep_view());
                assert(forwards.deep_view() + Seq::<Seq<char>>::empty() =~= forwards.deep_view());
            }
        }
        let ghost before_exit = ops.deep_view();
        ops.push(TermOp::ExitRaw);
        proof {
            assert(ops.deep_view() =~= before_exit + seq![TermOpModel::ExitRaw]);
            assert(ops.deep_view() =~= session_ops(m, c0));
        }
        (ops, forwards)
    }
}

/// What the input half does with one key: printable characters extend the
/// query, backspace removes its last character — each edit is announced —
/// the interrupt key stops the session, anything else is ignored.
pub open spec fn input_run(buf: Seq<char>, keys: Seq<KeyEvent>) -> Seq<InterfaceCommandModel>
    decreases keys.len(),
{
    if keys.len() == 0 {
        Seq::empty()
    } else {
        match keys[0] {
            KeyEvent::Character(c) => seq![InterfaceCommandModel::Query(buf.push(c))] + input_run(
                buf.push(c),
                keys.drop_first(),
            ),
            KeyEvent::Backspace => {
                let nb = if buf.len() == 0 {
                    buf
                } else {
                    buf.drop_last()
                };
                seq![InterfaceCommandModel::Query(nb)] + input_run(nb, keys.drop_first())
            },
            KeyEvent::Interrupt => seq![InterfaceCommandModel::Stop],
            KeyEvent::Other => input_run(buf, keys.drop_first()),
        }
    }
}

/// Relies on std's `String::push`: appends one character at the end.
#[verifier::external_body]
fn push_char(s: &mut String, c: char)
    ensures
        final(s)@ == old(s)@.push(c),
{
    s.push(c);
}

/// Relies on std's `String::pop`: removes the last character if the string
/// is not empty, and leaves an empty string empty.
#[verifier::external_body]
fn pop_char(s: &mut String)
    ensures
        final(s)@ == if old(s)@.len() == 0 {
            old(s)@
        } else {
            old(s)@.drop_last()
        },
{
    let _ = s.pop();
}

/// The input half of the terminal session: owns the query buffer and turns
/// key presses into query edits and the stop signal.
pub struct CommandReader {
    query: String,
}

impl CommandReader {
    pub fn new() -> (r: CommandReader)
        ensures
            r.buffer_view() == Seq::<char>::empty(),
    {
        CommandReader { query: String::new() }
    }

    /// The query buffer held now; this half owns it exclusively.
    pub closed spec fn buffer_view(&self) -> Seq<char> {
        self.query@
    }

    /// The input loop over a sequence of key presses, as `input_run`
    /// states: every edit is announced downstream, interrupt stops.
    pub fn input_loop(&mut self, keys: Vec<KeyEvent>) -> (msgs: Vec<InterfaceCommand>)
        ensures
            msgs.deep_view() == input_run(old(self).buffer_view(), keys@),
    {
        let ghost b0 = old(self).buffer_view();
        let ghost k0 = keys@;
        let mut rest = keys;
        let mut msgs: Vec<InterfaceCommand> = Vec::new();
        let mut done = false;
        proof {
            assert(msgs.deep_view() =~= Seq::<InterfaceCommandModel>::empty());
        }
        while !done && rest.len() > 0
            invariant
                done ==> input_run(b0, k0) == msgs.deep_view(),
                !done ==> input_run(b0, k0) == msgs.deep_view() + input_run(
                    self.buffer_view(),
                    rest@,
                ),
            decreases rest.len(),
        {
            let ghost pre_keys = rest@;
            let ghost pre_msgs = msgs.deep_view();
            let ghost pre_buf = self.buffer_view();
            let key = rest.remove(0);
            proof {
                assert(rest@ =~= pre_keys.drop_first());
            }
            match key {
                KeyEvent::Character(c) => {
                    push_char(&mut self.query, c);
                    msgs.push(InterfaceCommand::Query(self.query.clone()));
                    proof {
                        assert(msgs.deep_view() =~= pre_msgs + seq![
                            InterfaceCommandModel::Query(pre_buf.push(c)),
                        ]);
                    }
                },
                KeyEvent::Backspace => {
                    pop_char(&mut self.query);
                    msgs.push(InterfaceCommand::Query(self.query.clone()));
                    proof {
                        let nb = if pre_buf.len() == 0 {
                            pre_buf
                        } else {
                            pre_buf.drop_last()
                        };
                        assert(msgs.deep_view() =~= pre_msgs + seq![
                            InterfaceCommandModel::Query(nb),
                        ]);
                    }
                },
                KeyEvent::Interrupt => {
                    msgs.push(InterfaceCommand::Stop);
                    done = true;
                    proof {
                        assert(msgs.deep_view() =~= pre_msgs + seq![InterfaceCommandModel::Stop]);
                    }
                },
                KeyEvent::Other => {},
            }
            proof {
                if !done {
                    match pre_keys[0] {
                        KeyEvent::Character(c) => {
                            assert(input_run(pre_buf, pre_keys) == seq![
                                InterfaceCommandModel::Query(pre_buf.push(c)),
                            ] + input_run(pre_buf.push(c), pre_keys.drop_first()));
                            assert(pre_msgs + (seq![InterfaceCommandModel::Query(pre_buf.push(c))]
                                + input_run(pre_buf.push(c), pre_keys.drop_first())) =~= (pre_msgs
                                + seq![InterfaceCommandModel::Query(pre_buf.push(c))]) + input_run(
                                pre_buf.push(c),
                                pre_keys.drop_first(),
                            ));
                        },
                        KeyEvent::Backspace => {
                            let nb = if pre_buf.len() == 0 {
                                pre_buf
                            } else {
                                pre_buf.drop_last()
                            };
                            assert(input_run(pre_buf, pre_keys) == seq![
                                InterfaceCommandModel::Query(nb),
                            ] + input_run(nb, pre_keys.drop_first()));
                            assert(pre_msgs + (seq![InterfaceCommandModel::Query(nb)] + input_run(
                                nb,
                                pre_keys.drop_first(),
                            )) =~= (pre_msgs + seq![InterfaceCommandModel::Query(nb)]) + input_run(
                                nb,
                                pre_keys.drop_first(),
                            ));
                        },
                        KeyEvent::Other => {
                            assert(input_run(pre_buf, pre_keys) == input_run(
                                pre_buf,
                                pre_keys.drop_first(),
                            ));
                        },
                        KeyEvent::Interrupt => {},
                    }
                } else {
                    assert(input_run(pre_buf, pre_keys) == seq![InterfaceCommandModel::Stop]);
                }
            }
        }
        proof {
            if !done {
                assert(rest@.len() == 0);
                assert(input_run(self.buffer_view(), rest@) =~= Seq::<
                    InterfaceCommandModel,
                >::empty());
                assert(msgs.deep_view() + Seq::<InterfaceCommandModel>::empty() =~= msgs.deep_view());
            }
        }
        msgs
    }
}

/// No operation of the sequence touches raw mode.
pub open spec fn no_raw(ops: Seq<TermOpModel>) -> bool {
    forall|k: int|
        0 <= k < ops.len() ==> !((#[trigger] ops[k]) is EnterRaw) && !(ops[k] is ExitRaw)
}

/// No operation of the sequence draws text.
pub open spec fn no_text(ops: Seq<TermOpModel>) -> bool {
    forall|k: int| 0 <= k < ops.len() ==> !((#[trigger] ops[k]) is Text)
}

proof fn lemma_no_raw_concat(a: Seq<TermOpModel>, b: Seq<TermOpModel>)
    requires
        no_raw(a),
        no_raw(b),
    ensures
        no_raw(a + b),
{
    assert forall|k: int|
        0 <= k < (a + b).len() implies !((#[trigger] (a + b)[k]) is EnterRaw) && !((a + b)[k]
        is ExitRaw) by {
        if k < a.len() {
            assert((a + b)[k] == a[k]);
        } else {
            assert((a + b)[k] == b[k - a.len()]);
        }
    }
}

proof fn lemma_rows_ops_no_raw(m: InterfaceModel, r: Seq<MatchModel>, i: int)
    ensures
        no_raw(rows_ops(m, r, i)),
    decreases m.lines + 1 - i,
{
    if i < 1 || i > m.lines {
    } else {
        lemma_rows_ops_no_raw(m, r, i + 1);
        let head = seq![TermOpModel::Goto(1, m.base_y + i), TermOpModel::ClearLine];
        let mid = if i - 1 < r.len() {
            seq![TermOpModel::Text(r[i - 1].line)]
        } else {
            Seq::<TermOpModel>::empty()
        };
        assert(no_raw(head)) by {
            assert(head[0] == TermOpModel::Goto(1, m.base_y + i));
            assert(head[1] == TermOpModel::ClearLine);
        }
        assert(no_raw(mid)) by {
            if i - 1 < r.len() {
                assert(mid[0] == TermOpModel::Text(r[i - 1].line));
            }
        }
        lemma_no_raw_concat(head, mid);
        lemma_no_raw_concat(head + mid, rows_ops(m, r, i + 1));
    }
}

proof fn lemma_clear_rows_plain(m: InterfaceModel, i: int)
    ensures
        no_raw(clear_rows(m, i)),
        no_text(clear_rows(m, i)),
    decreases m.lines + 1 - i,
{
    if i < 0 || i > m.lines {
    } else {
        lemma_clear_rows_plain(m, i + 1);
        let head = seq![TermOpModel::Goto(1, m.base_y + i), TermOpModel::ClearLine];
        let rest = clear_rows(m, i + 1);
        assert(head[0] == TermOpModel::Goto(1, m.base_y + i));
        assert(head[1] == TermOpModel::ClearLine);
        assert forall|k: int|
            0 <= k < (head + rest).len() implies !((#[trigger] (head + rest)[k]) is EnterRaw) && !((
        head + rest)[k] is ExitRaw) && !((head + rest)[k] is Text) by {
            if k < head.len() {
                assert((head + rest)[k] == head[k]);
            } else {
                assert((head + rest)[k] == rest[k - head.len()]);
            }
        }
    }
}

/// The stop path's screen restore draws nothing, enters or leaves raw mode
/// never, clears the prompt row, and parks the cursor on the prompt row.
pub proof fn lemma_cleanup_leaves_prompt_blank(m: InterfaceModel)
    requires
        m.lines >= 0,
    ensures
        no_raw(cleanup_ops(m)),
        no_text(cleanup_ops(m)),
        cleanup_ops(m)[0] == TermOpModel::Goto(1, m.base_y),
        cleanup_ops(m)[1] == TermOpModel::ClearLine,
        cleanup_ops(m)[cleanup_ops(m).len() - 1] == TermOpModel::Goto(1, m.base_y),
{
    lemma_clear_rows_plain(m, 0);
    let tail = seq![TermOpModel::Goto(1, m.base_y)];
    let ops = cleanup_ops(m);
    assert(tail[0] == TermOpModel::Goto(1, m.base_y));
    assert forall|k: int|
        0 <= k < ops.len() implies !((#[trigger] ops[k]) is EnterRaw) && !(ops[k] is ExitRaw) && !(
    ops[k] is Text) by {
        if k < clear_rows(m, 0).len() {
            assert(ops[k] == clear_rows(m, 0)[k]);
        } else {
            assert(ops[k] == tail[k - clear_rows(m, 0).len()]);
        }
    }
    assert(clear_rows(m, 0) == seq![TermOpModel::Goto(1, m.base_y), TermOpModel::ClearLine]
        + clear_rows(m, 1));
    assert(ops[0] == TermOpModel::Goto(1, m.base_y));
    assert(ops[1] == TermOpModel::ClearLine);
    assert(ops[ops.len() - 1] == tail[0]);
}

proof fn lemma_session_step_no_raw(m: InterfaceModel, cmd: InterfaceCommandModel)
    ensures
        no_raw(session_step(m, cmd).0),
{
    match cmd {
        InterfaceCommandModel::Results(r) => {
            lemma_rows_ops_no_raw(m, r, 1);
            assert(no_raw(seq![TermOpModel::SaveCursor])) by {
                assert(seq![TermOpModel::SaveCursor][0] == TermOpModel::SaveCursor);
            }
            assert(no_raw(seq![TermOpModel::RestoreCursor])) by {
                assert(seq![TermOpModel::RestoreCursor][0] == TermOpModel::RestoreCursor);
            }
            lemma_no_raw_concat(seq![TermOpModel::SaveCursor], rows_ops(m, r, 1));
            lemma_no_raw_concat(
                seq![TermOpModel::SaveCursor] + rows_ops(m, r, 1),
                seq![TermOpModel::RestoreCursor],
            );
        },
        InterfaceCommandModel::Query(q) => {
            let ops = query_ops(m, q);
            assert(ops[0] == TermOpModel::Goto(1, m.base_y));
            assert(ops[1] == TermOpModel::ClearLine);
            assert(ops[2] == TermOpModel::Text(prompt_text(q)));
        },
        InterfaceCommandModel::Stop => {
            lemma_clear_rows_plain(m, 0);
            let tail = seq![TermOpModel::Goto(1, m.base_y)];
            assert(no_raw(tail)) by {
                assert(tail[0] == TermOpModel::Goto(1, m.base_y));
            }
            lemma_no_raw_concat(clear_rows(m, 0), tail);
        },
    }
}

proof fn lemma_session_steps_no_raw(m: InterfaceModel, cmds: Seq<InterfaceCommandModel>)
    ensures
        no_raw(session_steps(m, cmds).0),
    decreases cmds.len(),
{
    if cmds.len() == 0 {
    } else {
        lemma_session_step_no_raw(m, cmds[0]);
        let (o1, f1, st) = session_step(m, cmds[0]);
        if st {
        } else {
            lemma_session_steps_no_raw(m, cmds.drop_first());
            lemma_no_raw_concat(o1, session_steps(m, cmds.drop_first()).0);
        }
    }
}

/// Raw mode is acquired and released exactly once per session: the first
/// operation enters it, the last leaves it, and nothing in between touches
/// it — whatever the messages were.
pub proof fn lemma_session_raw_mode(m: InterfaceModel, cmds: Seq<InterfaceCommandModel>)
    ensures
        session_ops(m, cmds).len() >= 2,
        session_ops(m, cmds)[0] is EnterRaw,
        session_ops(m, cmds)[session_ops(m, cmds).len() - 1] is ExitRaw,
        forall|k: int|
            0 < k < session_ops(m, cmds).len() - 1 ==> !((#[trigger] session_ops(m, cmds)[k])
                is EnterRaw) && !(session_ops(m, cmds)[k] is ExitRaw),
{
    lemma_session_steps_no_raw(m, cmds);
    let mid = session_steps(m, cmds).0;
    let ops = session_ops(m, cmds);
    assert(ops[0] == seq![TermOpModel::EnterRaw][0]);
    assert(ops[ops.len() - 1] == seq![TermOpModel::ExitRaw][0]);
    assert forall|k: int|
        0 < k < ops.len() - 1 implies !((#[trigger] ops[k]) is EnterRaw) && !(ops[k]
        is ExitRaw) by {
        assert(ops[k] == mid[k - 1]);
    }
}

/// A message sequence that ends in Stop, with no earlier Stop, drives the
/// session to the Stopped state, and its last drawing operations are the
/// cleanup: the screen restore runs after everything else.
pub proof fn lemma_session_stop_restores(m: InterfaceModel, cmds: Seq<InterfaceCommandModel>)
    requires
        cmds.len() > 0,
        cmds.last() is Stop,
        forall|k: int| 0 <= k < cmds.len() - 1 ==> !((#[trigger] cmds[k]) is Stop),
    ensures
        session_steps(m, cmds).2,
        session_steps(m, cmds).0 == session_steps(m, cmds.drop_last()).0 + cleanup_ops(m),
    decreases cmds.len(),
{
    if cmds.len() == 1 {
        assert(cmds[0] == cmds.last());
        assert(cmds.drop_last() =~= Seq::<InterfaceCommandModel>::empty());
        assert(session_steps(m, cmds.drop_last()).0 == Seq::<TermOpModel>::empty());
        assert(session_steps(m, cmds).0 == cleanup_ops(m));
        assert(Seq::<TermOpModel>::empty() + cleanup_ops(m) =~= cleanup_ops(m));
    } else {
        assert(!(cmds[0] is Stop));
        let (o1, f1, st) = session_step(m, cmds[0]);
        assert(!st);
        let d1 = cmds.drop_first();
        assert(d1.last() == cmds.last());
        assert(forall|k: int| 0 <= k < d1.len() - 1 ==> d1[k] == cmds[k + 1]);
        lemma_session_stop_restores(m, d1);
        let dl = cmds.drop_last();
        assert(dl[0] == cmds[0]);
        assert(dl.len() > 0);
        let (o1b, f1b, stb) = session_step(m, dl[0]);
        assert(o1b == o1 && !stb);
        assert(dl.drop_first() =~= d1.drop_last());
        assert(session_steps(m, dl).0 == o1 + session_steps(m, d1.drop_last()).0);
        assert(session_steps(m, cmds).0 == o1 + session_steps(m, d1).0);
        assert(o1 + (session_steps(m, d1.drop_last()).0 + cleanup_ops(m)) =~= (o1 + session_steps(
            m,
            d1.drop_last(),
        ).0) + cleanup_ops(m));
    }
}

} // verus!
