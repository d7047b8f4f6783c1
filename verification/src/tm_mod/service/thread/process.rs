//! What the thread that watches one process decides: when a launch has
//! succeeded, when a stop is done, whether to start the program again, and
//! what to answer. The thread itself spawns, polls, signals and sleeps, and
//! hands what it saw to these functions.
use vstd::prelude::*;
use crate::text::{split_on, split_seq, lemma_split_nonempty, split_whitespace, words_seq};
use crate::tm_mod::cmd::Instruction;
use crate::tm_mod::config::{Config, Autorestart, Signal};

verus! {

#[derive(Debug, PartialEq, Eq, Structural, Clone, Copy)]
pub enum State {
    RUNNING,
    BACKOFF,
    STOPPED,
    UNLAUNCHED,
    EXITED,
    KILLED,
}

/// What polling the child found.
#[derive(Debug, PartialEq, Eq, Structural, Clone, Copy)]
pub enum WaitStatus {
    /// It has not ended yet.
    Running,
    /// Polling failed.
    WaitFailed,
    /// It exited with this code.
    Exited(i32),
    /// A signal ended it.
    Signaled(Signal),
    /// It ended with neither code nor signal.
    Ended,
}

/// What to do after one poll during a launch.
#[derive(Debug, PartialEq, Eq, Structural, Clone, Copy)]
pub enum LaunchPoll {
    /// The program ended, with this code, before or after its start time.
    Exited { code: i32, lived_enough: bool },
    /// The program has run for its start time: it is running.
    Started,
    /// Poll again.
    Continue,
}

/// What to do after one poll during a stop.
#[derive(Debug, PartialEq, Eq, Structural, Clone, Copy)]
pub enum StopPoll {
    /// The program is no longer running.
    Stopped,
    /// The stop time is over: kill the program.
    Kill,
    /// Poll again.
    Continue,
}

/// What an instruction asks of the process.
#[derive(Debug, PartialEq, Eq, Structural, Clone, Copy)]
pub enum Plan {
    Stop,
    Status,
    Start,
    Restart,
    Reread,
    Unrecognised,
}

/// A process struct represents the watch over one running program: its
/// configuration, its state, and whether a child process is held.
#[derive(Debug)]
pub struct Process {
    pub config: Config,
    pub state: State,
    pub has_child: bool,
}

pub open spec fn state_name(s: State) -> Seq<char> {
    match s {
        State::RUNNING => "RUNNING"@,
        State::BACKOFF => "BACKOFF"@,
        State::STOPPED => "STOPPED"@,
        State::UNLAUNCHED => "UNLAUNCHED"@,
        State::EXITED => "EXITED"@,
        State::KILLED => "KILLED"@,
    }
}

/// A message about program `name`: its name, a colon and a space, and `what`.
pub open spec fn about(name: Seq<char>, what: Seq<char>) -> Seq<char> {
    name + ": "@ + what
}

/// The answer is the text `text`.
pub open spec fn says(r: Option<String>, text: Seq<char>) -> bool {
    match r {
        Some(m) => m@ == text,
        None => false,
    }
}

/// Seconds as nanoseconds.
pub open spec fn nanos(secs: u64) -> int {
    secs * 1_000_000_000
}

pub fn state_text(s: State) -> (r: &'static str)
    ensures
        r@ == state_name(s),
{
    match s {
        State::RUNNING => "RUNNING",
        State::BACKOFF => "BACKOFF",
        State::STOPPED => "STOPPED",
        State::UNLAUNCHED => "UNLAUNCHED",
        State::EXITED => "EXITED",
        State::KILLED => "KILLED",
    }
}

fn message_about(name: &String, what: &str) -> (r: String)
    ensures
        r@ == about(name@, what@),
{
    let mut r = name.clone();
    r.append(": ");
    r.append(what);
    r
}

fn as_nanos(secs: u64) -> (r: u128)
    ensures
        r == nanos(secs),
{
    assert(secs * 1_000_000_000 <= u128::MAX) by (nonlinear_arith)
        requires secs <= u64::MAX;
    (secs as u128) * 1_000_000_000
}

/// The program that the command line `argv` names: what comes before its
/// first space.
pub fn program_name(argv: &str) -> (r: &str)
    ensures
        r@ == split_seq(argv@, ' ')[0],
{
    let pieces = split_on(argv, ' ');
    proof {
        lemma_split_nonempty(argv@, ' ');
        assert(pieces@.map_values(|p: &str| p@)[0] == pieces[0]@);
    }
    pieces[0]
}

/// The arguments that the command line `argv` passes: its words after the
/// first, when it is longer than one byte.
pub fn program_args(argv: &str) -> (r: Vec<&str>)
    requires
        argv.len() > 1 ==> words_seq(argv@).len() >= 1,
    ensures
        r@.map_values(|p: &str| p@) == if argv.len() > 1 {
            words_seq(argv@).drop_first()
        } else {
            Seq::<Seq<char>>::empty()
        },
{
    let mut r: Vec<&str> = Vec::new();
    if argv.len() > 1 {
        let words = split_whitespace(argv);
        let ghost ws = words@.map_values(|p: &str| p@);
        let n = words.len();
        let mut i: usize = 1;
        proof {
            assert(r@.map_values(|p: &str| p@) =~= ws.subrange(1, 1));
        }
        while i < n
            invariant
                n == words.len(),
                1 <= i <= n,
                ws == words@.map_values(|p: &str| p@),
                r@.map_values(|p: &str| p@) == ws.subrange(1, i as int),
            decreases n - i,
        {
            let ghost b = r@.map_values(|p: &str| p@);
            r.push(words[i]);
            proof {
                assert(r@.map_values(|p: &str| p@) =~= b.push(words[i as int]@));
                assert(ws.subrange(1, i + 1) =~= ws.subrange(1, i as int).push(ws[i as int]));
            }
            i = i + 1;
        }
        proof {
            assert(ws.subrange(1, n as int) =~= ws.drop_first());
        }
    } else {
        proof {
            assert(r@.map_values(|p: &str| p@) =~= Seq::<Seq<char>>::empty());
        }
    }
    r
}

/// What an instruction asks of the process.
pub open spec fn plan_of(ins: Instruction) -> Plan {
    match ins {
        Instruction::STOP => Plan::Stop,
        Instruction::STATUS => Plan::Status,
        Instruction::START => Plan::Start,
        Instruction::RESTART => Plan::Restart,
        Instruction::REREAD => Plan::Reread,
        Instruction::SHUTDOWN => Plan::Unrecognised,
        Instruction::RELOAD => Plan::Unrecognised,
    }
}

/// What an instruction asks of the process.
pub fn plan(ins: Instruction) -> (p: Plan)
    ensures
        p == plan_of(ins),
{
    match ins {
        Instruction::STOP => Plan::Stop,
        Instruction::STATUS => Plan::Status,
        Instruction::START => Plan::Start,
        Instruction::RESTART => Plan::Restart,
        Instruction::REREAD => Plan::Reread,
        Instruction::SHUTDOWN => Plan::Unrecognised,
        Instruction::RELOAD => Plan::Unrecognised,
    }
}

/// What the watch does next with what its channel brought.
#[derive(Debug, PartialEq, Eq, Structural, Clone, Copy)]
pub enum WatchStep {
    /// Nothing came: watch the program.
    Watch,
    /// Stop the program and end the watch.
    StopAndExit,
    /// Carry the instruction out.
    Carry(Plan),
}

/// What the watch does with what its channel brought: nothing came, watch
/// the program; `SHUTDOWN` stops it and ends the watch; any other instruction
/// is carried out.
pub fn watch_step(received: Option<Instruction>) -> (r: WatchStep)
    ensures
        r == match received {
            None => WatchStep::Watch,
            Some(Instruction::SHUTDOWN) => WatchStep::StopAndExit,
            Some(ins) => WatchStep::Carry(plan_of(ins)),
        },
{
    match received {
        None => WatchStep::Watch,
        Some(Instruction::SHUTDOWN) => WatchStep::StopAndExit,
        Some(ins) => WatchStep::Carry(plan(ins)),
    }
}

/// The answer to a restart: the answer of the stop, a line break, and the
/// answer of the start.
pub fn restart_message(stopped: String, started: String) -> (r: String)
    ensures
        r@ == stopped@ + "\n"@ + started@,
{
    let mut r = stopped;
    r.append("\n");
    r.append(started.as_str());
    r
}

/// The answer to an instruction the process does not carry out.
pub fn unrecognised_message() -> (r: String)
    ensures
        r@ == "unrecognised instruction"@,
{
    String::from_str("unrecognised instruction")
}

impl Process {
    /// A watch over a program not launched yet.
    pub fn new(config: Config) -> (p: Process)
        ensures
            p.config@ == config@,
            p.state == State::UNLAUNCHED,
            !p.has_child,
    {
        Process { config, state: State::UNLAUNCHED, has_child: false }
    }

    /// Whether the watch launches the program as soon as it begins: as the
    /// configuration's `autostart` says.
    pub fn launches_at_start(&self) -> (r: bool)
        ensures
            r == self.config@.autostart,
    {
        self.config.autostart
    }

    /// The exit code is one the configuration expects.
    pub fn exit_expected(&self, code: i32) -> (r: bool)
        ensures
            r == self.config@.exitcodes.contains(code as i64),
    {
        let c = code as i64;
        let n = self.config.exitcodes.len();
        let mut i: usize = 0;
        while i < n
            invariant
                n == self.config.exitcodes.len(),
                i <= n,
                c == code as i64,
                forall|j: int| 0 <= j < i ==> self.config@.exitcodes[j] != c,
            decreases n - i,
        {
            if self.config.exitcodes[i] == c {
                proof {
                    assert(self.config@.exitcodes[i as int] == c);
                }
                return true;
            }
            i = i + 1;
        }
        false
    }

    /// Records whether spawning gave a child; a failed spawn keeps whatever
    /// child was held.
    pub fn spawned(&mut self, ok: bool)
        ensures
            final(self).has_child == (old(self).has_child || ok),
            final(self).state == old(self).state,
            final(self).config@ == old(self).config@,
    {
        if ok {
            self.has_child = true;
        }
    }

    /// Takes in what polling the child found, when a child is held: an ended
    /// child is let go, and the state follows; returns the exit code or the
    /// signal that ended it.
    pub fn try_wait(&mut self, status: WaitStatus) -> (r: (Option<i32>, Option<Signal>))
        ensures
            final(self).config@ == old(self).config@,
            !old(self).has_child ==> r == (None::<i32>, None::<Signal>) && final(self).state == old(self).state
                && !final(self).has_child,
            old(self).has_child ==> match status {
                WaitStatus::Exited(code) => r == (Some(code), None::<Signal>) && final(self).state == State::EXITED
                    && !final(self).has_child,
                WaitStatus::Signaled(sig) => r == (None::<i32>, Some(sig)) && final(self).state == State::STOPPED
                    && !final(self).has_child,
                WaitStatus::Ended => r == (None::<i32>, None::<Signal>) && final(self).state == old(self).state
                    && !final(self).has_child,
                _ => r == (None::<i32>, None::<Signal>) && final(self).state == State::RUNNING && final(self).has_child,
            },
    {
        if !self.has_child {
            return (None, None);
        }
        match status {
            WaitStatus::Exited(code) => {
                self.has_child = false;
                self.state = State::EXITED;
                (Some(code), None)
            },
            WaitStatus::Signaled(sig) => {
                self.has_child = false;
                self.state = State::STOPPED;
                (None, Some(sig))
            },
            WaitStatus::Ended => {
                self.has_child = false;
                (None, None)
            },
            _ => {
                self.state = State::RUNNING;
                (None, None)
            },
        }
    }

    /// One poll of a launch, `elapsed` nanoseconds after it began: an ended
    /// program has exited (code 1 when it has none), a program still running
    /// after its start time is running, otherwise poll again.
    pub fn launch_poll(&mut self, status: WaitStatus, elapsed: u128) -> (r: LaunchPoll)
        ensures
            final(self).config@ == old(self).config@,
            final(self).has_child == old(self).has_child,
            match status {
                WaitStatus::Exited(code) => r == (LaunchPoll::Exited { code, lived_enough: elapsed >= nanos(old(self).config@.starttime) })
                    && final(self).state == State::EXITED,
                WaitStatus::Signaled(_) | WaitStatus::Ended => r == (LaunchPoll::Exited { code: 1, lived_enough: elapsed >= nanos(old(self).config@.starttime) })
                    && final(self).state == State::EXITED,
                WaitStatus::Running => if elapsed > nanos(old(self).config@.starttime) {
                    r == LaunchPoll::Started && final(self).state == State::RUNNING
                } else {
                    r == LaunchPoll::Continue && final(self).state == old(self).state
                },
                WaitStatus::WaitFailed => r == LaunchPoll::Continue && final(self).state == old(self).state,
            },
    {
        let start = as_nanos(self.config.starttime);
        match status {
            WaitStatus::Exited(code) => {
                self.state = State::EXITED;
                LaunchPoll::Exited { code, lived_enough: !(elapsed < start) }
            },
            WaitStatus::Signaled(_) | WaitStatus::Ended => {
                self.state = State::EXITED;
                LaunchPoll::Exited { code: 1, lived_enough: !(elapsed < start) }
            },
            WaitStatus::Running => {
                if elapsed > start {
                    self.state = State::RUNNING;
                    LaunchPoll::Started
                } else {
                    LaunchPoll::Continue
                }
            },
            WaitStatus::WaitFailed => LaunchPoll::Continue,
        }
    }

    /// Before launching: a running program is not launched again.
    pub fn execute_begin(&self) -> (r: Option<String>)
        ensures
            self.state == State::RUNNING ==> says(r, about(self.config@.name, "ERROR (already running)"@)),
            self.state != State::RUNNING ==> r is None,
    {
        if self.state == State::RUNNING {
            return Some(message_about(&self.config.name, "ERROR (already running)"));
        }
        None
    }

    /// After launch attempt number `tries` (from 1): a running program is
    /// done; after `startretries` retries the program is given up on.
    pub fn execute_after_try(&mut self, tries: u64) -> (r: Option<String>)
        ensures
            final(self).config@ == old(self).config@,
            final(self).has_child == old(self).has_child,
            old(self).state == State::RUNNING ==> says(r, about(old(self).config@.name, "RUNNING"@))
                && final(self).state == State::RUNNING,
            old(self).state != State::RUNNING && tries > old(self).config@.startretries ==> says(r, about(
                old(self).config@.name,
                "FATAL (too many try)"@,
            )) && final(self).state == State::BACKOFF,
            old(self).state != State::RUNNING && tries <= old(self).config@.startretries ==> r is None && final(self).state
                == old(self).state,
    {
        if self.state == State::RUNNING {
            return Some(message_about(&self.config.name, "RUNNING"));
        }
        if tries > self.config.startretries {
            self.state = State::BACKOFF;
            return Some(message_about(&self.config.name, "FATAL (too many try)"));
        }
        None
    }

    /// Before stopping: without a child there is nothing to stop.
    pub fn stop_begin(&self) -> (r: Option<String>)
        ensures
            !self.has_child ==> says(r, about(self.config@.name, "ERROR (not running)"@)),
            self.has_child ==> r is None,
    {
        if !self.has_child {
            return Some(message_about(&self.config.name, "ERROR (not running)"));
        }
        None
    }

    /// One poll of a stop: the stop time `elapsed` nanoseconds in, the child as
    /// polling found it. A program no longer running is stopped; after the
    /// stop time it is killed.
    pub fn stop_poll(&mut self, status: WaitStatus, elapsed: u128) -> (r: (StopPoll, Option<String>))
        ensures
            final(self).config@ == old(self).config@,
            ({
                let waited = if old(self).has_child {
                    match status {
                        WaitStatus::Exited(_) => State::EXITED,
                        WaitStatus::Signaled(_) => State::STOPPED,
                        WaitStatus::Ended => old(self).state,
                        _ => State::RUNNING,
                    }
                } else {
                    old(self).state
                };
                if waited != State::RUNNING {
                    r.0 == StopPoll::Stopped && says(r.1, about(old(self).config@.name, "STOPPED"@))
                        && final(self).state == waited
                } else if elapsed > nanos(old(self).config@.stoptime) {
                    r.0 == StopPoll::Kill && says(r.1, about(old(self).config@.name, "KILLED"@))
                        && final(self).state == State::KILLED
                } else {
                    r.0 == StopPoll::Continue && r.1 is None && final(self).state == State::RUNNING
                }
            }),
            final(self).has_child == (old(self).has_child && match status {
                WaitStatus::Running | WaitStatus::WaitFailed => true,
                _ => false,
            }),
    {
        self.try_wait(status);
        if self.state != State::RUNNING {
            return (StopPoll::Stopped, Some(message_about(&self.config.name, "STOPPED")));
        }
        if elapsed > as_nanos(self.config.stoptime) {
            self.state = State::KILLED;
            return (StopPoll::Kill, Some(message_about(&self.config.name, "KILLED")));
        }
        (StopPoll::Continue, None)
    }

    /// The answer to a status request: the name and the state.
    pub fn status(&self) -> (r: String)
        ensures
            r@ == about(self.config@.name, state_name(self.state)),
    {
        message_about(&self.config.name, state_text(self.state))
    }

    /// Takes a configuration read anew, if one was sent.
    pub fn reread(&mut self, config: Option<Config>) -> (r: String)
        ensures
            final(self).state == old(self).state,
            final(self).has_child == old(self).has_child,
            match config {
                Some(c) => final(self).config@ == c@ && r@ == "Process locally updating"@,
                None => final(self).config@ == old(self).config@ && r@ == "No config sent"@,
            },
    {
        match config {
            Some(c) => {
                self.config = c;
                String::from_str("Process locally updating")
            },
            None => String::from_str("No config sent"),
        }
    }

    /// Whether the program must be started again after polling found it
    /// ended with exit code `stat` or signal `sig`: always, never, or only
    /// when the end was unexpected, as the configuration says. An end is
    /// unexpected when the exit code is not among the expected ones, or when
    /// a signal other than SIGKILL and the stop signal ended it.
    pub fn should_restart(&self, stat: Option<i32>, sig: Option<Signal>) -> (r: bool)
        ensures
            r == match self.config@.autorestart {
                Autorestart::TRUE => true,
                Autorestart::FALSE => false,
                Autorestart::UNEXPECTED => match (stat, sig) {
                    (Some(code), None) => !self.config@.exitcodes.contains(code as i64),
                    (None, Some(s)) => s != Signal::SIGKILL && s != self.config@.stopsignal,
                    _ => false,
                },
            },
    {
        match self.config.autorestart {
            Autorestart::TRUE => true,
            Autorestart::FALSE => false,
            Autorestart::UNEXPECTED => match (stat, sig) {
                (Some(code), None) => !self.exit_expected(code),
                (None, Some(s)) => s != Signal::SIGKILL && self.config.stopsignal != s,
                _ => false,
            },
        }
    }
}

} // verus!
