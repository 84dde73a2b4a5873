use cheats::events::InterfaceCommand;
use cheats::events::KeyEvent;
use cheats::interface::CommandReader;
use cheats::interface::Interface;
use cheats::interface::TermOp;
use cheats::matcher::MatchResult;

fn result(line: &str, score: usize) -> MatchResult {
    MatchResult { line: line.to_string(), score, matches: Vec::new() }
}

#[test]
fn init_derives_the_anchor_row_and_draws_the_prompt() {
    let mut iface = Interface::new(2);
    assert_eq!(iface.reserve_rows(), vec![TermOp::Newline; 3]);
    let ops = iface.init(10);
    assert_eq!(
        ops,
        vec![
            TermOp::Goto(1, 7),
            TermOp::ClearLine,
            TermOp::Text("Search: > ".to_string()),
        ]
    );
}

#[test]
fn update_query_redraws_the_prompt_line() {
    let mut iface = Interface::new(2);
    let _ = iface.init(10);
    let ops = iface.update_query("ab");
    assert_eq!(
        ops,
        vec![
            TermOp::Goto(1, 7),
            TermOp::ClearLine,
            TermOp::Text("Search: > ab".to_string()),
        ]
    );
}

#[test]
fn update_results_clears_every_row_and_draws_what_exists() {
    let mut iface = Interface::new(2);
    let _ = iface.init(10);
    let ops = iface.update_results(&vec![result("tar", 0)]);
    assert_eq!(
        ops,
        vec![
            TermOp::SaveCursor,
            TermOp::Goto(1, 8),
            TermOp::ClearLine,
            TermOp::Text("tar".to_string()),
            TermOp::Goto(1, 9),
            TermOp::ClearLine,
            TermOp::RestoreCursor,
        ]
    );
}

#[test]
fn cleanup_clears_the_prompt_and_viewport_and_parks_the_cursor() {
    let mut iface = Interface::new(1);
    let _ = iface.init(10);
    let ops = iface.cleanup();
    assert_eq!(
        ops,
        vec![
            TermOp::Goto(1, 8),
            TermOp::ClearLine,
            TermOp::Goto(1, 9),
            TermOp::ClearLine,
            TermOp::Goto(1, 8),
        ]
    );
    assert!(ops.iter().all(|op| !matches!(op, TermOp::Text(_))));
}

#[test]
fn session_enters_and_leaves_raw_mode_exactly_once() {
    let mut iface = Interface::new(1);
    let _ = iface.init(10);
    let cmds = vec![
        InterfaceCommand::Query("t".to_string()),
        InterfaceCommand::Results(vec![result("tar", 0)]),
        InterfaceCommand::Stop,
    ];
    let (ops, forwards) = iface.events_loop(cmds);
    assert_eq!(ops.first(), Some(&TermOp::EnterRaw));
    assert_eq!(ops.last(), Some(&TermOp::ExitRaw));
    let raw_ops = ops
        .iter()
        .filter(|op| matches!(op, TermOp::EnterRaw | TermOp::ExitRaw))
        .count();
    assert_eq!(raw_ops, 2);
    assert_eq!(forwards, vec!["t".to_string()]);
    // after the stop no text is drawn: the prompt row ends blank
    let last_text = ops.iter().rposition(|op| matches!(op, TermOp::Text(_))).unwrap();
    let last_clear_of_prompt = ops
        .iter()
        .rposition(|op| matches!(op, TermOp::Goto(1, 8)))
        .unwrap();
    assert!(last_text < last_clear_of_prompt);
}

#[test]
fn session_stops_at_stop_and_ignores_the_rest() {
    let mut iface = Interface::new(1);
    let _ = iface.init(10);
    let cmds = vec![
        InterfaceCommand::Stop,
        InterfaceCommand::Query("late".to_string()),
    ];
    let (ops, forwards) = iface.events_loop(cmds);
    assert!(forwards.is_empty());
    assert!(ops.iter().all(|op| !matches!(op, TermOp::Text(_))));
}

#[test]
fn input_loop_edits_the_query_and_announces_each_edit() {
    let mut reader = CommandReader::new();
    let keys = vec![
        KeyEvent::Character('a'),
        KeyEvent::Character('b'),
        KeyEvent::Other,
        KeyEvent::Backspace,
        KeyEvent::Interrupt,
        KeyEvent::Character('z'),
    ];
    let msgs = reader.input_loop(keys);
    assert_eq!(msgs.len(), 4);
    match &msgs[0] {
        InterfaceCommand::Query(q) => assert_eq!(q, "a"),
        _ => panic!("expected a query edit"),
    }
    match &msgs[1] {
        InterfaceCommand::Query(q) => assert_eq!(q, "ab"),
        _ => panic!("expected a query edit"),
    }
    match &msgs[2] {
        InterfaceCommand::Query(q) => assert_eq!(q, "a"),
        _ => panic!("expected a query edit"),
    }
    assert!(matches!(msgs[3], InterfaceCommand::Stop));
}

#[test]
fn backspace_on_an_empty_buffer_announces_the_empty_query() {
    let mut reader = CommandReader::new();
    let msgs = reader.input_loop(vec![KeyEvent::Backspace]);
    assert_eq!(msgs.len(), 1);
    match &msgs[0] {
        InterfaceCommand::Query(q) => assert_eq!(q, ""),
        _ => panic!("expected a query edit"),
    }
}
