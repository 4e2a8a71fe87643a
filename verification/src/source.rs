//! The ingestion side: classifying command strings, splitting them into
//! argument vectors, and feeding parsed metric lines into the sample
//! channel.

use vstd::prelude::*;
use vstd::string::{StringExecFns, StringSliceAdditionalSpecFns};

use std::sync::mpsc::Sender;

use crate::parse::{line_samples, parse_metric_line};
use crate::store::Signal;

verus! {

/// The shell metacharacters that make a command string a shell script:
/// `;`, `|`, `$`, `<`, `>`, or a `&&` pair (`||` is covered by `|`).
pub open spec fn is_meta_byte(b: u8) -> bool {
    b == 59 || b == 124 || b == 36 || b == 60 || b == 62
}

/// Whether the bytes contain a shell metacharacter or a `&&` pair.
pub open spec fn is_shell_text(b: Seq<u8>) -> bool {
    ||| exists|i: int| 0 <= i < b.len() && is_meta_byte(#[trigger] b[i])
    ||| exists|i: int| 0 <= i && i + 1 < b.len() && #[trigger] b[i] == 38 && b[i + 1] == 38
}

/// Whether a command string must be handed to a shell rather than split
/// into words and executed directly.
pub fn is_shell_script(command: &str) -> (r: bool)
    ensures
        r == is_shell_text(command.spec_bytes()),
{
    let b = command.as_bytes();
    let len = b.len();
    let mut i: usize = 0;
    while i < len
        invariant
            i <= len,
            len == b@.len(),
            b@ == command.spec_bytes(),
            forall|j: int| 0 <= j < i ==> !is_meta_byte(#[trigger] b@[j]),
            forall|j: int| 0 <= j < i && j + 1 < len ==> !(#[trigger] b@[j] == 38 && b@[j + 1]
                == 38),
        decreases len - i,
    {
        let c = b[i];
        if c == 59 || c == 124 || c == 36 || c == 60 || c == 62 {
            return true;
        }
        if c == 38 && i + 1 < len && b[i + 1] == 38 {
            return true;
        }
        i = i + 1;
    }
    false
}

/// What `shell_words::split` returns on these characters: the POSIX shell
/// word tokenization, or nothing when a quote is unmatched.
pub uninterp spec fn shell_split_of(s: Seq<char>) -> Option<Seq<Seq<char>>>;

/// Relies on shell_words::split: tokenization by POSIX shell word rules
/// with quote removal, a function of the characters alone; it fails
/// exactly on an unmatched quote.
#[verifier::external_body]
fn shell_split(command: &str) -> (r: Option<Vec<String>>)
    ensures
        match r {
            Some(v) => shell_split_of(command@) == Some(v.deep_view()),
            None => shell_split_of(command@) == None::<Seq<Seq<char>>>,
        },
{
    shell_words::split(command).ok()
}

/// Why a command string could not be turned into an invocation.
#[derive(Debug, PartialEq, Eq, Copy, Clone)]
pub enum CommandError {
    /// Shell-word splitting failed (an unmatched quote).
    ParseFailed,
    /// The command string holds no word at all.
    Empty,
}

impl CommandError {
    /// A short description, for logging.
    pub fn message(&self) -> (r: &'static str)
        ensures
            self is ParseFailed ==> r@ == "failed to parse command"@,
            self is Empty ==> r@ == "empty command string"@,
    {
        match self {
            CommandError::ParseFailed => "failed to parse command",
            CommandError::Empty => "empty command string",
        }
    }
}

/// Turn a command string into a program and its arguments: a string with
/// shell metacharacters runs as `sh -c <string>`, anything else is split
/// by shell-word rules and executed directly, so no shell is spawned for
/// a plain invocation.
pub fn parse_command_args(command: &str) -> (r: Result<(String, Vec<String>), CommandError>)
    ensures
        match r {
            Ok(p) => {
                if is_shell_text(command.spec_bytes()) {
                    &&& p.0@ == "sh"@
                    &&& p.1@.len() == 2
                    &&& p.1@[0]@ == "-c"@
                    &&& p.1@[1]@ == command@
                } else {
                    &&& shell_split_of(command@) matches Some(toks)
                    &&& shell_split_of(command@)->Some_0.len() > 0
                    &&& p.0@ == shell_split_of(command@)->Some_0[0]
                    &&& p.1.deep_view() == shell_split_of(command@)->Some_0.skip(1)
                }
            },
            Err(CommandError::ParseFailed) => !is_shell_text(command.spec_bytes())
                && shell_split_of(command@) is None,
            Err(CommandError::Empty) => !is_shell_text(command.spec_bytes()) && shell_split_of(
                command@,
            ) == Some(Seq::<Seq<char>>::empty()),
        },
{
    if is_shell_script(command) {
        let mut args: Vec<String> = Vec::new();
        args.push(String::from_str("-c"));
        args.push(command.to_owned());
        Ok((String::from_str("sh"), args))
    } else {
        match shell_split(command) {
            None => Err(CommandError::ParseFailed),
            Some(mut toks) => {
                if toks.len() == 0 {
                    proof {
                        assert(toks.deep_view() =~= Seq::<Seq<char>>::empty());
                    }
                    Err(CommandError::Empty)
                } else {
                    let ghost whole = toks.deep_view();
                    let cmd = toks.remove(0);
                    proof {
                        assert(toks.deep_view() =~= whole.skip(1));
                    }
                    Ok((cmd, toks))
                }
            },
        }
    }
}

/// Declares std::sync::mpsc::Sender as an opaque outside type, so producer
/// code can hand samples to the channel.
#[verifier::external_type_specification]
#[verifier::external_body]
#[verifier::reject_recursive_types(T)]
pub struct ExSender<T>(Sender<T>);

/// Relies on std::sync::mpsc::Sender::send: hands one sample to the
/// channel, failing exactly when the receiver is gone; whether it is
/// depends on the consumer thread, so nothing is promised of the result.
#[verifier::external_body]
fn send_signal(tx: &Sender<Signal>, s: Signal) -> (ok: bool) {
    tx.send(s).is_ok()
}

/// Parse one line of source output and send every accepted sample down
/// the channel, in token order: exactly `line_samples(line)` is handed
/// over, each stamped `now_ms`, stopping at the first failed send.
/// Rejected tokens are skipped, never fatal. A false result means a send
/// failed because the receiver is gone — the producer's signal to stop —
/// so a line that yields no sample always reports success; whether a send
/// succeeds rests with the consumer, and nothing more can be promised of
/// it.
pub fn process_metric_line(line: &[u8], now_ms: u64, tx: &Sender<Signal>) -> (ok: bool)
    ensures
        line_samples(line@).len() == 0 ==> ok,
        !ok ==> line_samples(line@).len() > 0,
{
    let mut samples = parse_metric_line(line);
    proof {
        assert(samples@.len() == line_samples(line@).len());
    }
    while samples.len() > 0
        invariant
            samples@.len() <= line_samples(line@).len(),
        decreases samples@.len(),
    {
        let p = samples.remove(0);
        let (name, value) = p;
        let sent = send_signal(tx, Signal { name, x_time: now_ms, value });
        if !sent {
            return false;
        }
    }
    true
}

/// The two source families the supervisor runs.
#[derive(Debug, PartialEq, Eq, Copy, Clone)]
pub enum SourceKind {
    /// A long-running process, restarted when it exits.
    LongRunning,
    /// A command re-executed every interval.
    Repeated,
}

/// What a source thread just observed.
#[derive(Debug, PartialEq, Eq, Copy, Clone)]
pub enum SourceEvent {
    /// The command string could not be turned into an invocation.
    CommandInvalid,
    /// The operating system could not start the program.
    SpawnFailed,
    /// A long-running process ended.
    ProcessExited,
    /// One run of a repeated command completed.
    RunFinished,
    /// A send failed: the receiver is gone.
    SendFailed,
}

/// What a source thread does next.
#[derive(Debug, PartialEq, Eq, Copy, Clone)]
pub enum SourceAction {
    /// Sleep this many milliseconds, then go round again.
    RetryAfterMillis(u64),
    /// Shut the thread down: the consumer is gone, a normal shutdown.
    Stop,
}

/// The configured command interval in milliseconds, saturating.
pub open spec fn interval_millis(secs: u64) -> u64 {
    if secs * 1000 > 0xffffffffffffffff {
        0xffffffffffffffff
    } else {
        (secs * 1000) as u64
    }
}

/// The supervisor's retry policy. A failed send stops the thread — the
/// receiver is gone, which is shutdown, not an error. Everything else
/// retries forever: a long-running source waits five seconds after an
/// invalid command string or a failed spawn and one second after a natural
/// exit; a repeated command waits its configured interval after every
/// outcome. No source failure is ever fatal to the program.
pub fn retry_policy(kind: SourceKind, event: SourceEvent, interval_secs: u64) -> (r: SourceAction)
    ensures
        r == (match event {
            SourceEvent::SendFailed => SourceAction::Stop,
            SourceEvent::CommandInvalid | SourceEvent::SpawnFailed => match kind {
                SourceKind::LongRunning => SourceAction::RetryAfterMillis(5_000),
                SourceKind::Repeated => SourceAction::RetryAfterMillis(
                    interval_millis(interval_secs),
                ),
            },
            SourceEvent::ProcessExited | SourceEvent::RunFinished => match kind {
                SourceKind::LongRunning => SourceAction::RetryAfterMillis(1_000),
                SourceKind::Repeated => SourceAction::RetryAfterMillis(
                    interval_millis(interval_secs),
                ),
            },
        }),
{
    match event {
        SourceEvent::SendFailed => SourceAction::Stop,
        SourceEvent::CommandInvalid | SourceEvent::SpawnFailed => match kind {
            SourceKind::LongRunning => SourceAction::RetryAfterMillis(5_000),
            SourceKind::Repeated => {
                let ms = (interval_secs as u128) * 1000;
                SourceAction::RetryAfterMillis(
                    if ms > u64::MAX as u128 {
                        u64::MAX
                    } else {
                        ms as u64
                    },
                )
            },
        },
        SourceEvent::ProcessExited | SourceEvent::RunFinished => match kind {
            SourceKind::LongRunning => SourceAction::RetryAfterMillis(1_000),
            SourceKind::Repeated => {
                let ms = (interval_secs as u128) * 1000;
                SourceAction::RetryAfterMillis(
                    if ms > u64::MAX as u128 {
                        u64::MAX
                    } else {
                        ms as u64
                    },
                )
            },
        },
    }
}

/// The command-line surface: repeatable long-running processes, repeatable
/// interval commands, the interval in seconds, and the stdin or file
/// source.
pub struct Args {
    pub processes: Vec<String>,
    pub commands: Vec<String>,
    pub interval: u64,
    pub stdin: bool,
    pub file: Option<String>,
}

/// Which source family a run uses.
pub enum SourceSelection {
    FromStdin,
    FromFile(String),
    FromProcesses,
    NoSource,
}

impl Args {
    /// Pick the sample source the flags call for: stdin wins, then a file,
    /// then the process and command lists; with none of them the
    /// configuration is rejected and the program must exit non-zero.
    pub fn select_source(&self) -> (r: SourceSelection)
        ensures
            self.stdin ==> r is FromStdin,
            !self.stdin && self.file is Some ==> (r matches SourceSelection::FromFile(f) && f@
                == self.file->0@),
            !self.stdin && self.file is None && (self.processes@.len() > 0 || self.commands@.len()
                > 0) ==> r is FromProcesses,
            !self.stdin && self.file is None && self.processes@.len() == 0 && self.commands@.len()
                == 0 ==> r is NoSource,
    {
        if self.stdin {
            SourceSelection::FromStdin
        } else if let Some(f) = &self.file {
            SourceSelection::FromFile(f.clone())
        } else if self.processes.len() > 0 || self.commands.len() > 0 {
            SourceSelection::FromProcesses
        } else {
            SourceSelection::NoSource
        }
    }
}

} // verus!
