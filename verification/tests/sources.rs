//! Tests for command classification, shell-word splitting, the producer
//! line path into the channel, and source selection.

use std::sync::mpsc;

use tlook::source::{
    is_shell_script, parse_command_args, process_metric_line, retry_policy, Args, CommandError,
    SourceAction, SourceEvent, SourceKind, SourceSelection,
};

#[test]
fn shell_metacharacters_are_detected() {
    assert!(!is_shell_script("ls -la"));
    assert!(is_shell_script("a | b"));
    assert!(is_shell_script("a; b"));
    assert!(is_shell_script("a && b"));
    assert!(is_shell_script("a || b"));
    assert!(is_shell_script("echo $HOME"));
    assert!(is_shell_script("cat < f"));
    assert!(is_shell_script("cat > f"));
    assert!(!is_shell_script("a & b"));
    assert!(!is_shell_script(""));
}

#[test]
fn plain_commands_are_split_into_words() {
    let (cmd, args) = parse_command_args("ls -la /tmp").unwrap();
    assert_eq!(cmd, "ls");
    assert_eq!(args, vec!["-la".to_string(), "/tmp".to_string()]);
}

#[test]
fn quoted_words_stay_together() {
    let (cmd, args) = parse_command_args("echo \"a b\" c").unwrap();
    assert_eq!(cmd, "echo");
    assert_eq!(args, vec!["a b".to_string(), "c".to_string()]);
}

#[test]
fn shell_scripts_run_under_sh() {
    let (cmd, args) = parse_command_args("du -s * | sort -n").unwrap();
    assert_eq!(cmd, "sh");
    assert_eq!(args, vec!["-c".to_string(), "du -s * | sort -n".to_string()]);
}

#[test]
fn command_errors_are_classified() {
    assert_eq!(parse_command_args("").unwrap_err(), CommandError::Empty);
    assert_eq!(parse_command_args("   ").unwrap_err(), CommandError::Empty);
    assert_eq!(
        parse_command_args("foo 'unterminated").unwrap_err(),
        CommandError::ParseFailed
    );
    assert_eq!(CommandError::Empty.message(), "empty command string");
    assert_eq!(CommandError::ParseFailed.message(), "failed to parse command");
}

#[test]
fn metric_lines_flow_into_the_channel() {
    let (tx, rx) = mpsc::channel();
    assert!(process_metric_line(b"cpu=10;mem=20", 500, &tx));
    let first = rx.try_recv().unwrap();
    assert_eq!(first.name, b"cpu".to_vec());
    assert_eq!(first.x_time, 500);
    assert_eq!(first.value, 10_000_000);
    let second = rx.try_recv().unwrap();
    assert_eq!(second.name, b"mem".to_vec());
    assert_eq!(second.value, 20_000_000);
    assert!(rx.try_recv().is_err());
}

#[test]
fn bad_tokens_are_skipped_not_fatal() {
    let (tx, rx) = mpsc::channel();
    assert!(process_metric_line(b"bad_token;cpu=5", 10, &tx));
    let only = rx.try_recv().unwrap();
    assert_eq!(only.name, b"cpu".to_vec());
    assert_eq!(only.value, 5_000_000);
    assert!(rx.try_recv().is_err());
}

#[test]
fn a_closed_receiver_stops_the_producer() {
    let (tx, rx) = mpsc::channel();
    drop(rx);
    assert!(!process_metric_line(b"cpu=1", 0, &tx));
}

#[test]
fn a_line_with_no_samples_never_touches_the_channel() {
    let (tx, rx) = mpsc::channel();
    drop(rx);
    // nothing to send, so the closed receiver is not observed
    assert!(process_metric_line(b"garbage", 0, &tx));
}

#[test]
fn retry_policy_backs_off_and_never_aborts() {
    // a long-running source: five seconds after a bad command or a failed
    // spawn, one second after a natural exit
    assert_eq!(
        retry_policy(SourceKind::LongRunning, SourceEvent::CommandInvalid, 0),
        SourceAction::RetryAfterMillis(5_000)
    );
    assert_eq!(
        retry_policy(SourceKind::LongRunning, SourceEvent::SpawnFailed, 0),
        SourceAction::RetryAfterMillis(5_000)
    );
    assert_eq!(
        retry_policy(SourceKind::LongRunning, SourceEvent::ProcessExited, 0),
        SourceAction::RetryAfterMillis(1_000)
    );
    // a repeated command: its configured interval after every outcome
    for event in [
        SourceEvent::CommandInvalid,
        SourceEvent::SpawnFailed,
        SourceEvent::RunFinished,
    ] {
        assert_eq!(
            retry_policy(SourceKind::Repeated, event, 3),
            SourceAction::RetryAfterMillis(3_000)
        );
    }
    // a failed send is shutdown, not an error to retry
    assert_eq!(
        retry_policy(SourceKind::LongRunning, SourceEvent::SendFailed, 0),
        SourceAction::Stop
    );
    assert_eq!(
        retry_policy(SourceKind::Repeated, SourceEvent::SendFailed, 9),
        SourceAction::Stop
    );
    // a pathological interval saturates instead of overflowing
    assert_eq!(
        retry_policy(SourceKind::Repeated, SourceEvent::RunFinished, u64::MAX),
        SourceAction::RetryAfterMillis(u64::MAX)
    );
}

#[test]
fn source_selection_prefers_stdin_then_file() {
    let args = Args {
        processes: vec![],
        commands: vec![],
        interval: 1,
        stdin: true,
        file: Some("metrics.log".to_string()),
    };
    assert!(matches!(args.select_source(), SourceSelection::FromStdin));
    let args = Args { stdin: false, ..args };
    match args.select_source() {
        SourceSelection::FromFile(f) => assert_eq!(f, "metrics.log"),
        _ => panic!("expected the file source"),
    }
    let args = Args { file: None, processes: vec!["top -b".to_string()], ..args };
    assert!(matches!(args.select_source(), SourceSelection::FromProcesses));
    let args = Args { processes: vec![], commands: vec!["date".to_string()], ..args };
    assert!(matches!(args.select_source(), SourceSelection::FromProcesses));
    let args = Args { commands: vec![], ..args };
    assert!(matches!(args.select_source(), SourceSelection::NoSource));
}
