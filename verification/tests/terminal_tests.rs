use labs::terminal::starts_command_line;
use labs::terminal::{after_spawn, events_of_end, events_of_line, step, TerminalAction, TerminalEvent, TerminalMode};

#[test]
fn a_line_starts_its_command() {
    let (mode, action) = step(TerminalMode::Normal, TerminalEvent::UserInput("  ls -l\t/tmp \n".to_string()));
    assert_eq!(mode, TerminalMode::Normal);
    match action {
        TerminalAction::Spawn { program, args } => {
            assert_eq!(program, "ls");
            assert_eq!(args, vec!["-l".to_string(), "/tmp".to_string()]);
        }
        _ => panic!("expected a spawn"),
    }
    assert_eq!(after_spawn(true), TerminalMode::Command);
    assert_eq!(after_spawn(false), TerminalMode::Normal);
}

#[test]
fn normal_mode_quits_on_a_stop_request() {
    assert!(matches!(step(TerminalMode::Normal, TerminalEvent::UserTermination).1, TerminalAction::Quit));
    assert!(matches!(step(TerminalMode::Normal, TerminalEvent::CommandEnded).1, TerminalAction::Nothing));
}

#[test]
fn command_mode_forwards_and_shows() {
    match step(TerminalMode::Command, TerminalEvent::UserInput("yes\n".to_string())) {
        (TerminalMode::Command, TerminalAction::WriteToChild(s)) => assert_eq!(s, "yes\n"),
        _ => panic!("expected a write"),
    }
    match step(TerminalMode::Command, TerminalEvent::CommandOutput("out\n".to_string())) {
        (TerminalMode::Command, TerminalAction::Print(s)) => assert_eq!(s, "out\n"),
        _ => panic!("expected a print"),
    }
    assert!(matches!(
        step(TerminalMode::Command, TerminalEvent::UserTermination),
        (TerminalMode::Command, TerminalAction::KillChild)
    ));
    assert!(matches!(
        step(TerminalMode::Command, TerminalEvent::CommandEnded),
        (TerminalMode::Normal, TerminalAction::Nothing)
    ));
}

#[test]
fn ctrl_a_in_a_line_adds_a_stop_request() {
    let e = events_of_line("abc\u{1}\n".to_string());
    assert_eq!(e.len(), 2);
    assert!(matches!(&e[0], TerminalEvent::UserInput(s) if s == "abc\u{1}\n"));
    assert!(matches!(e[1], TerminalEvent::UserTermination));
    assert_eq!(events_of_line("plain\n".to_string()).len(), 1);
    assert!(matches!(events_of_end()[0], TerminalEvent::UserTermination));
}

#[test]
fn blank_lines_start_no_command() {
    assert!(!starts_command_line(" \n"));
    assert!(starts_command_line("ls\n"));
}
