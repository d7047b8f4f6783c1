use task_master::runner::{check_programs, command_args, exec_command, parse_config_file, read_programs, Process as Program};
use task_master::task_master::process::{Autorestart, Config, Process};
use task_master::tm_mod::service::thread::process::WaitStatus;
use task_master::yaml::YamlValue;

const SEC: u128 = 1_000_000_000;

fn text(s: &str) -> YamlValue {
    YamlValue::Str(s.to_string())
}

#[test]
fn config_defaults() {
    let c = Config::new(
        "p".to_string(), "ls".to_string(), None, None, None, None, None, None, None, None, None, None, None, None, None,
    );
    assert_eq!(c.name, "p");
    assert_eq!(c.argv, "ls");
    assert!(c.autostart);
    assert_eq!(c.exitcodes, vec![1, 2]);
    assert_eq!(c.startretries, 3);
    assert_eq!(c.umask, 700);
    assert_eq!(c.autorestart, Autorestart::UNEXPECTED);
    assert_eq!(c.starttime, 1);
    assert_eq!(c.stopsignal, 0);
    assert_eq!(c.stoptime, 10);
    assert_eq!(c.numprocs, 1);
}

#[test]
fn config_given_values() {
    let c = Config::new(
        "p".to_string(),
        "ls -l".to_string(),
        Some("/tmp"),
        Some(false),
        Some(vec![("K".to_string(), "V".to_string())]),
        Some("/tmp/o"),
        Some("/tmp/e"),
        Some(vec![0]),
        Some(7),
        Some(18),
        Some("false"),
        Some(3),
        Some(15),
        Some(4),
        Some(2),
    );
    assert_eq!(c.workingdir, Some("/tmp".to_string()));
    assert!(!c.autostart);
    assert_eq!(c.env, Some(vec![("K".to_string(), "V".to_string())]));
    assert_eq!(c.stdout, Some("/tmp/o".to_string()));
    assert_eq!(c.stderr, Some("/tmp/e".to_string()));
    assert_eq!(c.exitcodes, vec![0]);
    assert_eq!(c.startretries, 7);
    assert_eq!(c.umask, 18);
    assert_eq!(c.autorestart, Autorestart::FALSE);
    assert_eq!(c.starttime, 3);
    assert_eq!(c.stopsignal, 15);
    assert_eq!(c.stoptime, 4);
    assert_eq!(c.numprocs, 2);
}

#[test]
fn config_from_yaml() {
    let m = YamlValue::Hash(vec![
        (text("cmd"), text("sleep 1")),
        (text("autorestart"), text("true")),
        (text("exitcodes"), YamlValue::Int(3)),
        (text("stopsignal"), YamlValue::Int(9)),
        (text("workingdir"), YamlValue::Int(4)),
    ]);
    let c = Config::from_yaml("s", "sleep 1", &m);
    assert_eq!(c.autorestart, Autorestart::TRUE);
    assert_eq!(c.exitcodes, vec![3]);
    assert_eq!(c.stopsignal, 9);
    assert_eq!(c.workingdir, None);
    assert_eq!(c.numprocs, 1);
}

#[test]
fn watch_decisions() {
    let c = Config::new(
        "p".to_string(), "ls".to_string(), None, None, None, None, None, Some(vec![0]), Some(1), None, None, Some(2),
        None, None, None,
    );
    let mut p = Process::new(c);
    assert!(!p.has_child);
    p.spawn(true);
    assert!(p.has_child);
    assert_eq!(p.launch_poll(WaitStatus::Running, SEC), None);
    assert_eq!(p.launch_poll(WaitStatus::Running, 3 * SEC), Some(true));
    assert_eq!(p.launch_poll(WaitStatus::Exited(0), 3 * SEC), Some(true));
    assert_eq!(p.launch_poll(WaitStatus::Exited(1), 3 * SEC), Some(false));
    assert_eq!(p.launch_poll(WaitStatus::Exited(0), SEC), Some(false));
    assert_eq!(p.launch_poll(WaitStatus::WaitFailed, SEC), None);
    assert_eq!(p.execute_after_try(1, false), None);
    assert_eq!(p.execute_after_try(2, false), Some(false));
    assert_eq!(p.execute_after_try(5, true), Some(true));
}

fn programs_doc() -> Vec<YamlValue> {
    vec![YamlValue::Hash(vec![(
        text("programs"),
        YamlValue::Hash(vec![
            (text("a"), YamlValue::Hash(vec![(text("cmd"), text("echo a")), (text("numprocs"), YamlValue::Int(2))])),
            (text("b"), YamlValue::Hash(vec![(text("cmd"), text("echo b")), (text("autorestart"), YamlValue::Int(1))])),
        ]),
    )])]
}

#[test]
fn runner_reads_programs() {
    let docs = programs_doc();
    assert!(check_programs(&docs));
    let ps: Vec<Program> = parse_config_file(&docs);
    assert_eq!(ps.len(), 2);
    assert_eq!(ps[0].name, "a");
    assert_eq!(ps[0].argv, "echo a");
    assert_eq!(ps[0].numprocs, 2);
    assert_eq!(ps[0].startretries, 3);
    assert_eq!(ps[1].name, "b");
    assert_eq!(ps[1].autorestart, 1);
    assert_eq!(ps[1].stoptime, 10);
    let one = exec_command(&text("c"), &YamlValue::Hash(vec![(text("cmd"), text("true"))]));
    assert_eq!(one.name, "c");
    assert_eq!(one.exitcodes, vec![1, 2]);
}

#[test]
fn runner_refuses_what_it_cannot_read() {
    assert!(!check_programs(&vec![]));
    assert!(!check_programs(&vec![YamlValue::Hash(vec![(text("other"), YamlValue::Null)])]));
    let bad_env = vec![YamlValue::Hash(vec![(
        text("programs"),
        YamlValue::Hash(vec![(
            text("a"),
            YamlValue::Hash(vec![
                (text("cmd"), text("x")),
                (text("env"), YamlValue::Hash(vec![(text("K"), YamlValue::Int(1))])),
            ]),
        )]),
    )])];
    assert!(!check_programs(&bad_env));
}

#[test]
fn runner_reads_a_text() {
    let ps = read_programs("programs:\n  a:\n    cmd: echo a b\n    starttime: 2\n").unwrap();
    assert_eq!(ps.len(), 1);
    assert_eq!(ps[0].argv, "echo a b");
    assert!(ps[0].must_restart(SEC));
    assert!(!ps[0].must_restart(2 * SEC));
    assert!(read_programs("other: 1\n").is_none());
    assert!(read_programs("a: [").is_none());
    assert!(read_programs("").is_none());
    assert_eq!(command_args("echo a  b"), vec!["a", "", "b"]);
    assert_eq!(command_args("e"), Vec::<&str>::new());
}

#[test]
fn a_new_service_holds_no_process() {
    let s = task_master::task_master::service::Service::new("web".to_string());
    assert_eq!(s.name, "web");
    assert!(s.get("nginx").is_none());
    assert!(s.get("").is_none());
}

#[test]
fn from_yaml_reads_what_new_takes() {
    let m = YamlValue::Hash(vec![
        (text("cmd"), text("sleep 1")),
        (text("workingdir"), text("/tmp")),
        (text("exitcodes"), YamlValue::Array(vec![YamlValue::Int(0), YamlValue::Int(4)])),
        (text("umask"), YamlValue::Int(18)),
        (text("autorestart"), text("unexpected")),
        (text("numprocs"), YamlValue::Int(3)),
        (text("stdout"), YamlValue::Int(1)),
    ]);
    let a = Config::from_yaml("s", "sleep 1", &m);
    let b = Config::new(
        "s".to_string(), "sleep 1".to_string(), Some("/tmp"), None, None, None, None, Some(vec![0, 4]), None, Some(18),
        Some("unexpected"), None, None, None, Some(3),
    );
    assert_eq!(a.workingdir, b.workingdir);
    assert_eq!(a.autostart, b.autostart);
    assert_eq!(a.env, b.env);
    assert_eq!(a.stdout, b.stdout);
    assert_eq!(a.exitcodes, b.exitcodes);
    assert_eq!(a.startretries, b.startretries);
    assert_eq!(a.umask, b.umask);
    assert_eq!(a.autorestart, b.autorestart);
    assert_eq!(a.starttime, b.starttime);
    assert_eq!(a.stopsignal, b.stopsignal);
    assert_eq!(a.numprocs, b.numprocs);
}
