use task_master::tm_mod::cmd::{Cmd, Instruction, ParseError, Target};

#[test]
fn test_eq_instruction_r() {
    assert_eq!(
        Cmd { instruction: Instruction::START, target_vec: vec![Target::ALL] },
        Cmd { instruction: Instruction::START, target_vec: vec![Target::ALL] }
    );
}

#[test]
fn test_ne_instruction_w() {
    assert_ne!(
        Cmd { instruction: Instruction::SHUTDOWN, target_vec: vec![Target::ALL] },
        Cmd { instruction: Instruction::START, target_vec: vec![Target::ALL] }
    );
}

#[test]
fn test_eq_targets_r() {
    assert_eq!(
        Cmd { instruction: Instruction::START, target_vec: vec![Target::Process(String::from("Lorem ipsum"), None)] },
        Cmd { instruction: Instruction::START, target_vec: vec![Target::Process(String::from("Lorem ipsum"), None)] }
    );
}

#[test]
fn test_ne_targets_w() {
    assert_ne!(
        Cmd { instruction: Instruction::START, target_vec: vec![Target::Process(String::from("Lorem ipsum"), None)] },
        Cmd { instruction: Instruction::START, target_vec: vec![Target::Service(String::from("Lorem ipsum"))] }
    );
}

#[test]
fn test_ne_targets_diff_str_w() {
    assert_ne!(
        Cmd { instruction: Instruction::START, target_vec: vec![Target::Service(String::from("Lorem"))] },
        Cmd { instruction: Instruction::START, target_vec: vec![Target::Service(String::from("Lorem ipsum"))] }
    );
}

#[test]
fn test_cmd_simple_process_r() {
    assert_eq!(
        Cmd::from_vec(vec!["start", "process_name"]).unwrap(),
        Cmd { instruction: Instruction::START, target_vec: vec![Target::Process("process_name".to_string(), None)] }
    );
}

#[test]
fn test_cmd_simple_process_w() {
    assert_ne!(
        Cmd::from_vec(vec!["start", "process_name"]).unwrap(),
        Cmd { instruction: Instruction::START, target_vec: vec![Target::Service("process_name".to_string())] }
    );
}

#[test]
fn test_cmd_no_process_name() {
    println!("{:?}", Cmd::from_vec(vec!["start", "service_name:"]));
    assert_eq!(Cmd::from_vec(vec!["start", "service_name:"]), Err(ParseError::MissingProcess));
}

#[test]
fn test_cmd_simple_service_process() {
    assert_eq!(
        Cmd::from_vec(vec!["start", "service_name:process_name"]).unwrap(),
        Cmd {
            instruction: Instruction::START,
            target_vec: vec![Target::ServiceProcess(("service_name".to_string(), "process_name".to_string(), None))],
        }
    );
}

#[test]
fn test_cmd_many_process() {
    assert_eq!(
        Cmd::from_vec(vec!["start", "process_one", "process_two"]).unwrap(),
        Cmd {
            instruction: Instruction::START,
            target_vec: vec![
                Target::Process("process_one".to_string(), None),
                Target::Process("process_two".to_string(), None),
            ],
        }
    );
}

#[test]
fn test_cmd_all() {
    assert_eq!(
        Cmd::from_vec(vec!["start", "all"]).unwrap(),
        Cmd { instruction: Instruction::START, target_vec: vec![Target::ALL] }
    );
}

#[test]
fn test_cmd_too_many_level() {
    assert_eq!(Cmd::from_vec(vec!["start", "1:2:3:4"]), Err(ParseError::ToManyLevels));
}

#[test]
fn cmd_test_cmd_mix() {
    println!("{:?}", Cmd::from_vec(vec!["start", "process_one", "service_one:process_two"]));
    assert_eq!(
        Cmd::from_vec(vec!["start", "process_one", "service_one:process_two"]).unwrap(),
        Cmd {
            instruction: Instruction::START,
            target_vec: vec![
                Target::Process("process_one".to_string(), None),
                Target::ServiceProcess(("service_one".to_string(), "process_two".to_string(), None)),
            ],
        }
    );
}

#[test]
fn invalid_dsemi() {
    assert_eq!(Cmd::from_vec(vec!["start", "s1::p2"]), Err(ParseError::MissingProcess));
}
