use task_master::tm_mod::config::{config_check, parse_signal, valid_field, Autorestart, Config, ConfigError, Field, Signal};
use task_master::tm_mod::config_file::{read_config, ServiceConfig};
use task_master::yaml::{nesting_within_limit, YamlValue};

fn text(s: &str) -> YamlValue {
    YamlValue::Str(s.to_string())
}

fn read_ok(t: &str) -> Vec<ServiceConfig> {
    match read_config(t) {
        Ok(v) => v,
        Err(e) => panic!("unexpected error {:?}", e),
    }
}

fn read_err(t: &str) -> ConfigError {
    match read_config(t) {
        Ok(_) => panic!("expected an error"),
        Err(e) => e,
    }
}

#[test]
fn defaults_of_a_bare_program() {
    let s = read_ok("web:\n  nginx:\n    cmd: \"/usr/sbin/nginx -g daemon\"\n");
    assert_eq!(s.len(), 1);
    assert_eq!(s[0].name, "web");
    assert_eq!(s[0].processes.len(), 1);
    let c = &s[0].processes[0];
    assert_eq!(c.name, "nginx");
    assert_eq!(c.argv, "/usr/sbin/nginx -g daemon");
    assert_eq!(c.workingdir, None);
    assert!(c.autostart);
    assert!(c.env.is_none());
    assert_eq!(c.stdout, None);
    assert_eq!(c.stderr, None);
    assert_eq!(c.exitcodes, vec![1, 2]);
    assert_eq!(c.startretries, 3);
    assert_eq!(c.umask, 700);
    assert_eq!(c.autorestart, Autorestart::UNEXPECTED);
    assert_eq!(c.starttime, 1);
    assert_eq!(c.stopsignal, Signal::SIGTERM);
    assert_eq!(c.stoptime, 10);
    assert_eq!(c.numprocs, 1);
}

#[test]
fn every_option_read() {
    let t = "svc:\n  worker:\n    cmd: \"/bin/sleep 10\"\n    workingdir: /tmp\n    autostart: false\n    env:\n      A: one\n      B: two\n    stdout: /tmp/out\n    stderr: /tmp/err\n    exitcodes: [0, 3]\n    startretries: 5\n    umask: 18\n    autorestart: \"true\"\n    starttime: 4\n    stopsignal: KILL\n    stoptime: 7\n    numprocs: 3\n";
    let s = read_ok(t);
    let c = &s[0].processes[0];
    assert_eq!(c.workingdir, Some("/tmp".to_string()));
    assert!(!c.autostart);
    assert_eq!(
        c.env,
        Some(vec![("A".to_string(), "one".to_string()), ("B".to_string(), "two".to_string())])
    );
    assert_eq!(c.stdout, Some("/tmp/out".to_string()));
    assert_eq!(c.stderr, Some("/tmp/err".to_string()));
    assert_eq!(c.exitcodes, vec![0, 3]);
    assert_eq!(c.startretries, 5);
    assert_eq!(c.umask, 18);
    assert_eq!(c.autorestart, Autorestart::TRUE);
    assert_eq!(c.starttime, 4);
    assert_eq!(c.stopsignal, Signal::SIGKILL);
    assert_eq!(c.stoptime, 7);
    assert_eq!(c.numprocs, 3);
}

#[test]
fn single_exitcode_and_autorestart_false() {
    let s = read_ok("a:\n  p:\n    cmd: x\n    exitcodes: 4\n    autorestart: \"false\"\n");
    assert_eq!(s[0].processes[0].exitcodes, vec![4]);
    assert_eq!(s[0].processes[0].autorestart, Autorestart::FALSE);
}

#[test]
fn services_and_programs_keep_document_order() {
    let s = read_ok("b:\n  p2:\n    cmd: y\n  p1:\n    cmd: x\na:\n  p3:\n    cmd: z\n");
    assert_eq!(s.len(), 2);
    assert_eq!(s[0].name, "b");
    assert_eq!(s[1].name, "a");
    assert_eq!(s[0].processes[0].name, "p2");
    assert_eq!(s[0].processes[1].name, "p1");
    assert_eq!(s[1].processes[0].name, "p3");
}

#[test]
fn unreadable_yaml() {
    assert_eq!(read_err("a: [b"), ConfigError::Unreadable);
}

#[test]
fn no_document() {
    assert_eq!(read_err(""), ConfigError::NoDocument);
}

#[test]
fn document_not_a_mapping() {
    assert_eq!(read_err("- a\n- b\n"), ConfigError::DocumentNotAMapping);
}

#[test]
fn service_not_a_mapping() {
    assert_eq!(read_err("web: 3\n"), ConfigError::ServiceNotAMapping("web".to_string()));
}

#[test]
fn service_name_not_text() {
    assert_eq!(read_err("1:\n  p:\n    cmd: x\n"), ConfigError::ServiceNameNotText);
}

#[test]
fn process_name_not_text() {
    assert_eq!(read_err("web:\n  1:\n    cmd: x\n"), ConfigError::ProcessNameNotText);
}

#[test]
fn missing_command() {
    assert_eq!(read_err("web:\n  p:\n    numprocs: 2\n"), ConfigError::MissingCommand("p".to_string()));
    assert_eq!(read_err("web:\n  p: 3\n"), ConfigError::MissingCommand("p".to_string()));
}

#[test]
fn process_name_taken_across_services() {
    assert_eq!(
        read_err("a:\n  p:\n    cmd: x\nb:\n  p:\n    cmd: y\n"),
        ConfigError::DuplicateProcess("p".to_string())
    );
}

#[test]
fn process_named_like_its_service() {
    assert_eq!(read_err("a:\n  a:\n    cmd: x\n"), ConfigError::DuplicateProcess("a".to_string()));
}

#[test]
fn process_named_like_an_earlier_service() {
    assert_eq!(
        read_err("a:\n  p:\n    cmd: x\nb:\n  a:\n    cmd: y\n"),
        ConfigError::DuplicateProcess("a".to_string())
    );
}

#[test]
fn service_named_like_an_earlier_process() {
    assert_eq!(
        read_err("a:\n  b:\n    cmd: x\nb:\n  c:\n    cmd: y\n"),
        ConfigError::DuplicateService("b".to_string())
    );
}

#[test]
fn wrong_option_types() {
    assert_eq!(read_err("a:\n  p:\n    cmd: x\n    workingdir: 3\n"), ConfigError::InvalidType(Field::Workingdir));
    assert_eq!(read_err("a:\n  p:\n    cmd: x\n    autostart: 3\n"), ConfigError::InvalidType(Field::Autostart));
    assert_eq!(read_err("a:\n  p:\n    cmd: x\n    env: 3\n"), ConfigError::InvalidType(Field::Env));
    assert_eq!(read_err("a:\n  p:\n    cmd: x\n    exitcodes: zero\n"), ConfigError::InvalidType(Field::Exitcodes));
    assert_eq!(read_err("a:\n  p:\n    cmd: x\n    stopsignal: 9\n"), ConfigError::InvalidType(Field::Stopsignal));
    assert_eq!(read_err("a:\n  p:\n    cmd: x\n    umask: abc\n"), ConfigError::InvalidType(Field::Umask));
    assert_eq!(read_err("a:\n  p:\n    cmd: x\n    numprocs: two\n"), ConfigError::InvalidType(Field::Numprocs));
    assert_eq!(read_err("a:\n  p:\n    cmd: x\n    stoptime: [1]\n"), ConfigError::InvalidType(Field::Stoptime));
}

#[test]
fn env_values_must_be_text() {
    assert_eq!(read_err("a:\n  p:\n    cmd: x\n    env:\n      A: 1\n"), ConfigError::EnvNotText);
}

#[test]
fn exitcodes_must_be_integers() {
    assert_eq!(read_err("a:\n  p:\n    cmd: x\n    exitcodes: [1, b]\n"), ConfigError::ExitcodeNotInteger);
}

#[test]
fn unknown_signal() {
    assert_eq!(read_err("a:\n  p:\n    cmd: x\n    stopsignal: FOO\n"), ConfigError::BadSignal("FOO".to_string()));
}

#[test]
fn unknown_option() {
    assert_eq!(read_err("a:\n  p:\n    cmd: x\n    foo: 1\n"), ConfigError::BadField("foo".to_string()));
    assert_eq!(read_err("a:\n  p:\n    cmd: x\n    1: y\n"), ConfigError::FieldNameNotText);
}

#[test]
fn bad_autorestart() {
    assert_eq!(
        read_err("a:\n  p:\n    cmd: x\n    autorestart: maybe\n"),
        ConfigError::BadAutorestart("maybe".to_string())
    );
}

#[test]
fn numprocs_must_be_positive() {
    assert_eq!(read_err("a:\n  p:\n    cmd: x\n    numprocs: 0\n"), ConfigError::NumprocsNotPositive(0));
    assert_eq!(read_err("a:\n  p:\n    cmd: x\n    numprocs: -2\n"), ConfigError::NumprocsNotPositive(-2));
}

#[test]
fn options_that_are_no_mapping() {
    assert_eq!(config_check(&YamlValue::Int(3)), Some(ConfigError::NotAMapping));
    assert_eq!(config_check(&YamlValue::Hash(vec![(text("cmd"), text("x"))])), None);
}

#[test]
fn config_new_from_a_mapping() {
    let m = YamlValue::Hash(vec![
        (text("cmd"), text("ls -l")),
        (text("numprocs"), YamlValue::Int(2)),
        (text("stopsignal"), text("USR1")),
        (text("exitcodes"), YamlValue::Array(vec![YamlValue::Int(0)])),
    ]);
    assert_eq!(config_check(&m), None);
    let c = Config::new("lister", "ls -l", &m);
    assert_eq!(c.name, "lister");
    assert_eq!(c.argv, "ls -l");
    assert_eq!(c.numprocs, 2);
    assert_eq!(c.stopsignal, Signal::SIGUSR1);
    assert_eq!(c.exitcodes, vec![0]);
    assert_eq!(c.starttime, 1);
}

#[test]
fn signal_names() {
    assert_eq!(parse_signal("HUP"), Some(Signal::SIGHUP));
    assert_eq!(parse_signal("TERM"), Some(Signal::SIGTERM));
    assert_eq!(parse_signal("KILL"), Some(Signal::SIGKILL));
    assert_eq!(parse_signal("WINCH"), Some(Signal::SIGWINCH));
    assert_eq!(parse_signal("INFO"), Some(Signal::SIGINFO));
    assert_eq!(parse_signal("SIGTERM"), None);
    assert_eq!(parse_signal("term"), None);
    assert_eq!(parse_signal(""), None);
}

#[test]
fn option_names() {
    assert!(valid_field("cmd"));
    assert!(valid_field("numprocs"));
    assert!(valid_field("stopsignal"));
    assert!(!valid_field("command"));
    assert!(!valid_field(""));
}

#[test]
fn fatal_differences() {
    let a = read_ok("s:\n  p:\n    cmd: x\n    numprocs: 1\n");
    let b = read_ok("s:\n  p:\n    cmd: x\n    numprocs: 4\n    stoptime: 2\n    autostart: false\n");
    let c = read_ok("s:\n  p:\n    cmd: y\n");
    let d = read_ok("s:\n  p:\n    cmd: x\n    umask: 2\n");
    let e = read_ok("s:\n  p:\n    cmd: x\n    env:\n      K: v\n");
    let f = read_ok("s:\n  p:\n    cmd: x\n    workingdir: /\n");
    let pa = &a[0].processes[0];
    assert!(!pa.fatal_cmp(pa));
    assert!(!pa.fatal_cmp(&b[0].processes[0]));
    assert!(pa.fatal_cmp(&c[0].processes[0]));
    assert!(pa.fatal_cmp(&d[0].processes[0]));
    assert!(pa.fatal_cmp(&e[0].processes[0]));
    assert!(pa.fatal_cmp(&f[0].processes[0]));
    assert!(c[0].processes[0].fatal_cmp(pa));
}

#[test]
fn config_clone_keeps_fields() {
    let a = read_ok("s:\n  p:\n    cmd: x\n    numprocs: 2\n    env:\n      K: v\n");
    let c = a[0].processes[0].clone();
    assert!(!c.fatal_cmp(&a[0].processes[0]));
    assert_eq!(c.numprocs, 2);
    assert_eq!(c.env, Some(vec![("K".to_string(), "v".to_string())]));
}

fn dashes(n: usize) -> String {
    let mut s = String::new();
    for _ in 0..n {
        s.push_str("- ");
    }
    s.push_str("x\n");
    s
}

fn indented_keys(n: usize) -> String {
    let mut s = String::new();
    for i in 0..n {
        for _ in 0..i {
            s.push(' ');
        }
        s.push_str("k:\n");
    }
    s
}

#[test]
fn nesting_limit_is_computed() {
    assert!(nesting_within_limit(""));
    assert!(nesting_within_limit("web:\n  nginx:\n    cmd: x\n"));
    let long_cmd = format!("web:\n  p:\n    cmd: {}\n", "a b ".repeat(2000));
    assert!(nesting_within_limit(&long_cmd));
    assert!(nesting_within_limit(&dashes(140)));
    assert!(!nesting_within_limit(&dashes(160)));
    assert!(nesting_within_limit(&indented_keys(290)));
    assert!(!nesting_within_limit(&indented_keys(310)));
    assert!(nesting_within_limit(&format!("{}{}", "[".repeat(300), "]".repeat(300))));
}

#[test]
fn too_deep_texts_are_refused_before_parsing() {
    assert_eq!(read_err(&dashes(20000)), ConfigError::TooDeeplyNested);
    assert_eq!(read_err(&indented_keys(3000)), ConfigError::TooDeeplyNested);
    assert!(task_master::runner::read_programs(&dashes(20000)).is_none());
}

#[test]
fn texts_within_the_limit_parse_without_harm() {
    assert_eq!(read_err(&dashes(140)), ConfigError::DocumentNotAMapping);
    assert!(matches!(read_config(&indented_keys(290)), Err(_)));
    let flow = format!("a: {}{}\n", "[".repeat(140), "]".repeat(140));
    assert!(read_config(&flow).is_err());
    let deepest_flow = format!("{}{}", "[".repeat(255), "]".repeat(255));
    assert_eq!(read_err(&deepest_flow), ConfigError::DocumentNotAMapping);
    let too_deep_flow = format!("{}{}", "[".repeat(300), "]".repeat(300));
    assert_eq!(read_err(&too_deep_flow), ConfigError::Unreadable);
    let long_cmd = format!("web:\n  p:\n    cmd: {}\n", "a b ".repeat(2000));
    assert_eq!(read_ok(&long_cmd)[0].processes[0].argv.len(), 7999);
}
