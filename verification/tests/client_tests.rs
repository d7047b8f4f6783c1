use task_master::cli::parse_into_cmd;
use task_master::tm_mod::cmd::{Cmd, Instruction, Target};

#[test]
fn cmd_empty() {
    assert_eq!(parse_into_cmd(""), None);
    assert_eq!(parse_into_cmd("          "), None);
}

#[test]
fn help() {
    assert_eq!(parse_into_cmd("help"), None);
    assert_eq!(parse_into_cmd("help fsfsd"), None);
    assert_eq!(parse_into_cmd("help status"), None);
}

#[test]
fn double_point() {
    assert_eq!(parse_into_cmd(":::::::"), None);
    assert_eq!(parse_into_cmd("lol::lol"), None);
    assert_eq!(parse_into_cmd(":"), None);
    assert_eq!(parse_into_cmd("lala:"), None);
    assert_eq!(parse_into_cmd(":lala"), None);
}

#[test]
fn test_cmd_parse_many_process() {
    assert_eq!(
        parse_into_cmd("     start     process_one    process_two").unwrap(),
        Cmd::new(
            Instruction::START,
            vec![
                Target::Process("process_one".to_string(), None),
                Target::Process("process_two".to_string(), None),
            ],
        )
    );
}

#[test]
fn client_test_cmd_mix() {
    assert_eq!(
        parse_into_cmd("start process_one service_one:process_two").unwrap(),
        Cmd::new(
            Instruction::START,
            vec![
                Target::Process("process_one".to_string(), None),
                Target::ServiceProcess(("service_one".to_string(), "process_two".to_string(), None)),
            ],
        )
    );
}

#[test]
fn test_cmd_no_target() {
    assert_eq!(parse_into_cmd("start").unwrap(), Cmd::new(Instruction::START, vec![Target::ALL],));
}
