use task_master::tm_mod::cmd::Instruction;
use task_master::tm_mod::service::thread::process::{watch_step, WatchStep};
use task_master::tm_mod::config::{Config, Signal};
use task_master::tm_mod::config_file::read_config;
use task_master::tm_mod::service::thread::process::{
    plan, program_args, program_name, restart_message, state_text, unrecognised_message, LaunchPoll, Plan, Process,
    State, StopPoll, WaitStatus,
};

const SEC: u128 = 1_000_000_000;

fn config(options: &str) -> Config {
    let t = format!("s:\n  prog:\n    cmd: /bin/prog -a b\n{}", options);
    let mut v = read_config(&t).unwrap();
    v.remove(0).processes.remove(0)
}

fn with_child(options: &str) -> Process {
    let mut p = Process::new(config(options));
    p.spawned(true);
    p
}

#[test]
fn a_new_watch_is_unlaunched() {
    let p = Process::new(config(""));
    assert_eq!(p.state, State::UNLAUNCHED);
    assert!(!p.has_child);
    assert_eq!(p.status(), "prog: UNLAUNCHED");
}

#[test]
fn spawning_records_the_child() {
    let mut p = Process::new(config(""));
    p.spawned(false);
    assert!(!p.has_child);
    p.spawned(true);
    assert!(p.has_child);
    p.spawned(false);
    assert!(p.has_child);
}

#[test]
fn try_wait_follows_the_child() {
    let mut p = with_child("");
    assert_eq!(p.try_wait(WaitStatus::Running), (None, None));
    assert_eq!(p.state, State::RUNNING);
    assert!(p.has_child);
    assert_eq!(p.try_wait(WaitStatus::WaitFailed), (None, None));
    assert!(p.has_child);
    assert_eq!(p.try_wait(WaitStatus::Exited(3)), (Some(3), None));
    assert_eq!(p.state, State::EXITED);
    assert!(!p.has_child);
    assert_eq!(p.try_wait(WaitStatus::Exited(4)), (None, None));
    assert_eq!(p.state, State::EXITED);

    let mut q = with_child("");
    assert_eq!(q.try_wait(WaitStatus::Signaled(Signal::SIGINT)), (None, Some(Signal::SIGINT)));
    assert_eq!(q.state, State::STOPPED);
    assert!(!q.has_child);

    let mut r = with_child("");
    assert_eq!(r.try_wait(WaitStatus::Ended), (None, None));
    assert_eq!(r.state, State::UNLAUNCHED);
    assert!(!r.has_child);
}

#[test]
fn launch_polls() {
    let mut p = with_child("    starttime: 2\n");
    assert_eq!(p.launch_poll(WaitStatus::Running, SEC), LaunchPoll::Continue);
    assert_eq!(p.state, State::UNLAUNCHED);
    assert_eq!(p.launch_poll(WaitStatus::Running, 2 * SEC), LaunchPoll::Continue);
    assert_eq!(p.launch_poll(WaitStatus::WaitFailed, 3 * SEC), LaunchPoll::Continue);
    assert_eq!(p.launch_poll(WaitStatus::Running, 2 * SEC + 1), LaunchPoll::Started);
    assert_eq!(p.state, State::RUNNING);
    let mut q = with_child("    starttime: 2\n");
    assert_eq!(
        q.launch_poll(WaitStatus::Exited(0), SEC),
        LaunchPoll::Exited { code: 0, lived_enough: false }
    );
    assert_eq!(q.state, State::EXITED);
    assert_eq!(
        q.launch_poll(WaitStatus::Exited(7), 2 * SEC),
        LaunchPoll::Exited { code: 7, lived_enough: true }
    );
    assert_eq!(
        q.launch_poll(WaitStatus::Signaled(Signal::SIGKILL), 5 * SEC),
        LaunchPoll::Exited { code: 1, lived_enough: true }
    );
}

#[test]
fn launch_answers() {
    let mut p = Process::new(config("    startretries: 2\n"));
    assert_eq!(p.execute_begin(), None);
    assert_eq!(p.execute_after_try(1), None);
    assert_eq!(p.execute_after_try(2), None);
    assert_eq!(p.execute_after_try(3), Some("prog: FATAL (too many try)".to_string()));
    assert_eq!(p.state, State::BACKOFF);
    let mut q = with_child("");
    q.launch_poll(WaitStatus::Running, 10 * SEC);
    assert_eq!(q.execute_after_try(1), Some("prog: RUNNING".to_string()));
    assert_eq!(q.execute_begin(), Some("prog: ERROR (already running)".to_string()));
}

#[test]
fn stop_polls() {
    let p = Process::new(config(""));
    assert_eq!(p.stop_begin(), Some("prog: ERROR (not running)".to_string()));
    let mut q = with_child("    stoptime: 3\n");
    assert_eq!(q.stop_begin(), None);
    assert_eq!(q.stop_poll(WaitStatus::Running, SEC), (StopPoll::Continue, None));
    assert_eq!(q.stop_poll(WaitStatus::Running, 3 * SEC), (StopPoll::Continue, None));
    assert_eq!(
        q.stop_poll(WaitStatus::Running, 3 * SEC + 1),
        (StopPoll::Kill, Some("prog: KILLED".to_string()))
    );
    assert_eq!(q.state, State::KILLED);
    let mut r = with_child("");
    assert_eq!(
        r.stop_poll(WaitStatus::Signaled(Signal::SIGTERM), SEC),
        (StopPoll::Stopped, Some("prog: STOPPED".to_string()))
    );
    assert_eq!(r.state, State::STOPPED);
    assert!(!r.has_child);
}

#[test]
fn restart_decisions() {
    let p = Process::new(config(""));
    assert!(!p.should_restart(Some(1), None));
    assert!(!p.should_restart(Some(2), None));
    assert!(p.should_restart(Some(0), None));
    assert!(!p.should_restart(None, Some(Signal::SIGKILL)));
    assert!(!p.should_restart(None, Some(Signal::SIGTERM)));
    assert!(p.should_restart(None, Some(Signal::SIGSEGV)));
    assert!(!p.should_restart(None, None));
    let always = Process::new(config("    autorestart: \"true\"\n"));
    assert!(always.should_restart(None, None));
    let never = Process::new(config("    autorestart: \"false\"\n"));
    assert!(!never.should_restart(Some(0), None));
    let usr = Process::new(config("    stopsignal: USR1\n"));
    assert!(!usr.should_restart(None, Some(Signal::SIGUSR1)));
    assert!(usr.should_restart(None, Some(Signal::SIGTERM)));
}

#[test]
fn expected_exit_codes() {
    let p = Process::new(config("    exitcodes: [0, 5]\n"));
    assert!(p.exit_expected(0));
    assert!(p.exit_expected(5));
    assert!(!p.exit_expected(1));
}

#[test]
fn reread_takes_the_new_configuration() {
    let mut p = Process::new(config(""));
    assert_eq!(p.reread(None), "No config sent");
    assert_eq!(p.config.numprocs, 1);
    assert_eq!(p.reread(Some(config("    numprocs: 4\n"))), "Process locally updating");
    assert_eq!(p.config.numprocs, 4);
    assert_eq!(p.state, State::UNLAUNCHED);
}

#[test]
fn command_line_pieces() {
    assert_eq!(program_name("/bin/ls -l -a"), "/bin/ls");
    assert_eq!(program_name(" ls"), "");
    assert_eq!(program_name(""), "");
    assert_eq!(program_args("/bin/ls -l  -a"), vec!["-l", "-a"]);
    assert_eq!(program_args("ls"), Vec::<&str>::new());
    assert_eq!(program_args("l"), Vec::<&str>::new());
}

#[test]
fn instruction_plans_and_texts() {
    assert_eq!(plan(Instruction::STOP), Plan::Stop);
    assert_eq!(plan(Instruction::STATUS), Plan::Status);
    assert_eq!(plan(Instruction::START), Plan::Start);
    assert_eq!(plan(Instruction::RESTART), Plan::Restart);
    assert_eq!(plan(Instruction::REREAD), Plan::Reread);
    assert_eq!(plan(Instruction::SHUTDOWN), Plan::Unrecognised);
    assert_eq!(state_text(State::BACKOFF), "BACKOFF");
    assert_eq!(state_text(State::KILLED), "KILLED");
    assert_eq!(
        restart_message("p: STOPPED".to_string(), "p: RUNNING".to_string()),
        "p: STOPPED\np: RUNNING"
    );
    assert_eq!(unrecognised_message(), "unrecognised instruction");
}

#[test]
fn watch_steps() {
    assert_eq!(watch_step(None), WatchStep::Watch);
    assert_eq!(watch_step(Some(Instruction::SHUTDOWN)), WatchStep::StopAndExit);
    assert_eq!(watch_step(Some(Instruction::RESTART)), WatchStep::Carry(Plan::Restart));
    assert_eq!(watch_step(Some(Instruction::RELOAD)), WatchStep::Carry(Plan::Unrecognised));
    assert_eq!(plan(Instruction::RELOAD), Plan::Unrecognised);
    assert!(Process::new(config("")).launches_at_start());
    assert!(!Process::new(config("    autostart: false\n")).launches_at_start());
}
