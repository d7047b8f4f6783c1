use task_master::cli::{help_text, interpret_line, LineOutcome, HELP_DISPLAY, HELP_RESTART, HELP_STATUS};
use task_master::server::{argv_error, connection_plan, connection_response, parse_argv, ArgvError, ConnectionPlan};
use task_master::text::{decimal, is_whitespace, parse_usize, same_text, split_on, split_whitespace};
use task_master::tm_mod::cmd::{Cmd, Instruction, ParseError, Target};
use task_master::tm_mod::exec_error::{ExecError, ExecErrors};

#[test]
fn usize_parsing() {
    assert_eq!(parse_usize("0"), Some(0));
    assert_eq!(parse_usize("42"), Some(42));
    assert_eq!(parse_usize("+5"), Some(5));
    assert_eq!(parse_usize("007"), Some(7));
    assert_eq!(parse_usize(""), None);
    assert_eq!(parse_usize("+"), None);
    assert_eq!(parse_usize("-1"), None);
    assert_eq!(parse_usize("1a"), None);
    assert_eq!(parse_usize(" 1"), None);
    assert_eq!(parse_usize("18446744073709551615"), Some(usize::MAX));
    assert_eq!(parse_usize("18446744073709551616"), None);
}

#[test]
fn decimal_rendering() {
    assert_eq!(decimal(0), "0");
    assert_eq!(decimal(7), "7");
    assert_eq!(decimal(10), "10");
    assert_eq!(decimal(1234567), "1234567");
    assert_eq!(decimal(usize::MAX), usize::MAX.to_string());
}

#[test]
fn splitting() {
    assert_eq!(split_on("a:b::c", ':'), vec!["a", "b", "", "c"]);
    assert_eq!(split_on("", ':'), vec![""]);
    assert_eq!(split_on(":", ':'), vec!["", ""]);
    assert_eq!(split_whitespace("  start \t p1\n p2  "), vec!["start", "p1", "p2"]);
    assert_eq!(split_whitespace("   "), Vec::<&str>::new());
    assert!(is_whitespace(' '));
    assert!(is_whitespace('\t'));
    assert!(!is_whitespace('a'));
    assert!(same_text("abc", "abc"));
    assert!(!same_text("abc", "abd"));
    assert!(!same_text("ab", "abc"));
}

#[test]
fn target_forms() {
    assert_eq!(Target::from_str("all"), Ok(Target::ALL));
    assert_eq!(Target::from_str("ALL"), Ok(Target::ALL));
    assert_eq!(Target::from_str("aLl"), Ok(Target::ALL));
    assert_eq!(Target::from_str("alll"), Ok(Target::Process("alll".to_string(), None)));
    assert_eq!(Target::from_str("p"), Ok(Target::Process("p".to_string(), None)));
    assert_eq!(Target::from_str("p:3"), Ok(Target::Process("p".to_string(), Some(3))));
    assert_eq!(Target::from_str("s:*"), Ok(Target::Service("s".to_string())));
    assert_eq!(
        Target::from_str("s:p"),
        Ok(Target::ServiceProcess(("s".to_string(), "p".to_string(), None)))
    );
    assert_eq!(
        Target::from_str("s:p:2"),
        Ok(Target::ServiceProcess(("s".to_string(), "p".to_string(), Some(2))))
    );
    assert_eq!(Target::from_str("s:p:x"), Err(ParseError::BadThreadId));
    assert_eq!(Target::from_str(":p"), Err(ParseError::MissingService));
    assert_eq!(Target::from_str("s:"), Err(ParseError::MissingProcess));
    assert_eq!(Target::from_str("a:b:c:d"), Err(ParseError::ToManyLevels));
}

#[test]
fn commands_from_words() {
    assert_eq!(
        Cmd::from_vec(vec!["stop", "all"]),
        Ok(Cmd::new(Instruction::STOP, vec![Target::ALL]))
    );
    assert_eq!(
        Cmd::from_vec(vec!["reread"]),
        Ok(Cmd::new(Instruction::REREAD, vec![]))
    );
    assert_eq!(
        Cmd::from_vec(vec!["shutdown"]),
        Ok(Cmd::new(Instruction::SHUTDOWN, vec![]))
    );
    assert_eq!(
        Cmd::from_vec(vec!["status"]),
        Ok(Cmd::new(Instruction::STATUS, vec![Target::ALL]))
    );
    assert_eq!(
        Cmd::from_vec(vec!["launch", "p"]),
        Err(ParseError::InvalidCommand("launch".to_string()))
    );
}

#[test]
fn parse_error_texts() {
    assert_eq!(ParseError::BadThreadId.message(), "bad parsing for thread id : must be a valid usize");
    assert_eq!(ParseError::ToManyLevels.description(), "To many levels");
    assert_eq!(ParseError::InvalidCommand("go".to_string()).message(), "Invalid command go");
    assert_eq!(
        ParseError::MissingService.message(),
        "Missing service name. Type 'help' to see different commands and syntaxs"
    );
}

#[test]
fn exec_error_texts() {
    assert_eq!(ExecError::ProcessName("p".to_string()).message(), "no process with name p");
    assert_eq!(ExecError::ServiceName("s".to_string()).message(), "no service with name s");
    assert_eq!(
        ExecError::Sending(("p".to_string(), 12)).message(),
        "problem while sending to to thread for (process, thread_id): (p,12)"
    );
    assert_eq!(
        ExecError::ThreadOutofRange(("p".to_string(), 0)).message(),
        "thread out of range for (process, thread_id) : (p,0)"
    );
    let es = ExecErrors { e_vect: vec![ExecError::ProcessName("a".to_string()), ExecError::ServiceName("b".to_string())] };
    assert_eq!(es.message(), "\nno process with name a\nno service with name b");
    assert_eq!(es.description(), "exec errors");
    assert_eq!(ExecErrors::result_from_e_vec(vec![]), Ok(()));
    assert_eq!(
        ExecErrors::result_from_e_vec(vec![ExecError::ProcessName("a".to_string())]),
        Err(ExecErrors { e_vect: vec![ExecError::ProcessName("a".to_string())] })
    );
}

#[test]
fn help_topics() {
    assert_eq!(help_text(&vec!["help"]), HELP_DISPLAY);
    assert_eq!(help_text(&vec!["help", "restart"]), HELP_RESTART);
    assert_eq!(help_text(&vec!["help", "status", "x"]), HELP_STATUS);
    assert_eq!(help_text(&vec!["help", "nothing"]), HELP_DISPLAY);
    assert!(HELP_RESTART.contains("Note: restart does not reread config files."));
}

#[test]
fn typed_lines() {
    assert!(matches!(interpret_line("   "), LineOutcome::Nothing));
    assert!(matches!(interpret_line("help stop"), LineOutcome::Help(t) if t.contains("stop <gname>:*")));
    assert!(matches!(interpret_line("start a:b:c:d"), LineOutcome::Invalid(ParseError::ToManyLevels)));
    match interpret_line("restart web:*") {
        LineOutcome::Command(c) => {
            assert_eq!(c, Cmd::new(Instruction::RESTART, vec![Target::Service("web".to_string())]))
        }
        _ => panic!("expected a command"),
    }
}

#[test]
fn daemon_command_line() {
    let args: Vec<String> = vec!["server".to_string(), "-c".to_string(), "conf.yml".to_string()];
    assert_eq!(argv_error(&args), None);
    assert_eq!(parse_argv(&args), ("-c", "conf.yml"));
    let short: Vec<String> = vec!["server".to_string(), "-c".to_string()];
    assert_eq!(argv_error(&short), Some(ArgvError::NotEnoughArguments));
    let wrong: Vec<String> = vec!["server".to_string(), "-f".to_string(), "x".to_string()];
    assert_eq!(argv_error(&wrong), Some(ArgvError::UnknownOption("-f".to_string())));
}

#[test]
fn connection_plans_and_answers() {
    assert_eq!(connection_plan(Instruction::SHUTDOWN), ConnectionPlan::Shutdown);
    assert_eq!(connection_plan(Instruction::REREAD), ConnectionPlan::RereadThenExec);
    assert_eq!(connection_plan(Instruction::START), ConnectionPlan::Exec);
    let replies = vec!["a: RUNNING".to_string(), "b: STOPPED".to_string()];
    assert_eq!(connection_response(&replies, &Ok(())), "\na: RUNNING\nb: STOPPED");
    let err = Err(ExecErrors { e_vect: vec![ExecError::ServiceName("x".to_string())] });
    assert_eq!(connection_response(&replies, &err), "\na: RUNNING\nb: STOPPED\nno service with name x");
    assert_eq!(connection_response(&vec![], &Ok(())), "");
}

#[test]
fn reload_is_a_command() {
    assert_eq!(
        task_master::cli::parse_into_cmd("reload"),
        Some(Cmd::new(Instruction::RELOAD, vec![]))
    );
    assert_eq!(Cmd::from_vec(vec!["reload", "web"]), Ok(Cmd::new(Instruction::RELOAD, vec![])));
    assert_eq!(connection_plan(Instruction::RELOAD), ConnectionPlan::ReloadThenExec);
    assert!(matches!(interpret_line("help reload"), LineOutcome::Help(t) if t.contains("Restart the remote supervisord")));
}

#[test]
fn first_bad_target_decides_the_error() {
    assert_eq!(Cmd::from_vec(vec!["start", "a", "s:p:x", ":b"]), Err(ParseError::BadThreadId));
    assert_eq!(Cmd::from_vec(vec!["stop", ":b", "s:p:x"]), Err(ParseError::MissingService));
    assert_eq!(Cmd::from_vec(vec!["status", "a", "b:", "1:2:3:4"]), Err(ParseError::MissingProcess));
}
