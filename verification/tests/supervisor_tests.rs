use std::collections::HashMap;

use task_master::tm_mod::cmd::{Cmd, Instruction, Target};
use task_master::tm_mod::config_file::{read_config, ServiceConfig};
use task_master::tm_mod::exec_error::ExecError;
use task_master::tm_mod::service::thread::{Step, ThreadAction};
use task_master::tm_mod::supervisor::exec_outcome;
use task_master::tm_mod::TmStruct;

fn configs(t: &str) -> Vec<ServiceConfig> {
    match read_config(t) {
        Ok(v) => v,
        Err(e) => panic!("unexpected error {:?}", e),
    }
}

fn act(a: &ThreadAction) -> String {
    match a {
        ThreadAction::Spawn { service, process, config } => format!("spawn {}:{} {}", service, process, config.numprocs),
        ThreadAction::Pop { service, process } => format!("pop {}:{}", service, process),
        ThreadAction::RemoveGroup { service, process } => format!("remove {}:{}", service, process),
        ThreadAction::Reread { service, process, config } => format!("reread {}:{} {}", service, process, config.numprocs),
    }
}

fn acts(v: &[ThreadAction]) -> Vec<String> {
    v.iter().map(act).collect()
}

fn step(s: &Step) -> String {
    match s {
        Step::Send { service, process, thread } => format!("{}:{}:{}", service, process, thread),
        Step::Fail(e) => format!("fail {}", e.message()),
    }
}

fn steps_of(tm: &TmStruct, targets: Vec<Target>) -> Vec<String> {
    let cmd = Cmd::new(Instruction::STATUS, targets);
    tm.exec_cmd(&cmd).iter().map(step).collect()
}

/// Applies the actions to a table of thread counts, as the daemon does.
fn apply(table: &mut HashMap<(String, String), usize>, v: &[ThreadAction]) {
    for a in v {
        match a {
            ThreadAction::Spawn { service, process, .. } => {
                *table.entry((service.clone(), process.clone())).or_insert(0) += 1;
            }
            ThreadAction::Pop { service, process } => {
                if let Some(n) = table.get_mut(&(service.clone(), process.clone())) {
                    *n -= 1;
                }
            }
            ThreadAction::RemoveGroup { service, process } => {
                table.remove(&(service.clone(), process.clone()));
            }
            ThreadAction::Reread { .. } => {}
        }
    }
    table.retain(|_, n| *n > 0);
}

/// The thread counts the supervisor's table gives, read off a status of all.
fn counts(tm: &TmStruct) -> HashMap<(String, String), usize> {
    let mut m = HashMap::new();
    let cmd = Cmd::new(Instruction::STATUS, vec![Target::ALL]);
    for s in tm.exec_cmd(&cmd) {
        if let Step::Send { service, process, .. } = s {
            *m.entry((service, process)).or_insert(0) += 1;
        }
    }
    m
}

const FIRST: &str = "web:\n  nginx:\n    cmd: /usr/sbin/nginx\n    numprocs: 2\ndb:\n  pg:\n    cmd: /usr/bin/postgres\n";

fn launched() -> (TmStruct<'static>, Vec<ThreadAction>) {
    let mut tm = TmStruct::new("tm.yaml");
    let a = tm.launch_from_hash(configs(FIRST));
    (tm, a)
}

#[test]
fn new_keeps_the_file_name() {
    let tm = TmStruct::new("conf.yml");
    assert_eq!(tm.config_file(), "conf.yml");
    assert_eq!(steps_of(&tm, vec![Target::ALL]), Vec::<String>::new());
}

#[test]
fn launch_spawns_every_process() {
    let (_, a) = launched();
    assert_eq!(acts(&a), vec!["spawn web:nginx 2", "spawn web:nginx 2", "spawn db:pg 1"]);
}

#[test]
fn routing_of_targets() {
    let (tm, _) = launched();
    assert_eq!(steps_of(&tm, vec![Target::ALL]), vec!["web:nginx:0", "web:nginx:1", "db:pg:0"]);
    assert_eq!(steps_of(&tm, vec![Target::Process("pg".to_string(), None)]), vec!["db:pg:0"]);
    assert_eq!(steps_of(&tm, vec![Target::Process("nginx".to_string(), Some(1))]), vec!["web:nginx:1"]);
    assert_eq!(
        steps_of(&tm, vec![Target::Process("nginx".to_string(), Some(5))]),
        vec!["fail thread out of range for (process, thread_id) : (nginx,5)"]
    );
    assert_eq!(steps_of(&tm, vec![Target::Service("web".to_string())]), vec!["web:nginx:0", "web:nginx:1"]);
    assert_eq!(
        steps_of(&tm, vec![Target::Service("cache".to_string())]),
        vec!["fail no service with name cache"]
    );
    assert_eq!(
        steps_of(&tm, vec![Target::ServiceProcess(("db".to_string(), "nginx".to_string(), None))]),
        vec!["fail no process with name nginx"]
    );
    assert_eq!(
        steps_of(&tm, vec![Target::ServiceProcess(("web".to_string(), "nginx".to_string(), Some(0)))]),
        vec!["web:nginx:0"]
    );
    assert_eq!(
        steps_of(&tm, vec![Target::Process("zzz".to_string(), None), Target::Process("pg".to_string(), None)]),
        vec!["fail no process with name zzz", "db:pg:0"]
    );
}

#[test]
fn outcome_counts_delivered_and_reports_failures() {
    let (tm, _) = launched();
    let cmd = Cmd::new(
        Instruction::STATUS,
        vec![Target::ALL, Target::Service("nope".to_string())],
    );
    let steps = tm.exec_cmd(&cmd);
    assert_eq!(steps.len(), 4);
    let mut nb: usize = 0;
    let r = exec_outcome(&steps, &vec![true, false, true, true], &mut nb);
    assert_eq!(nb, 2);
    let es = r.unwrap_err();
    assert_eq!(
        es.e_vect,
        vec![ExecError::Sending(("nginx".to_string(), 1)), ExecError::ServiceName("nope".to_string())]
    );
    let mut nb2: usize = 5;
    let cmd = Cmd::new(Instruction::STATUS, vec![Target::ALL]);
    let steps = tm.exec_cmd(&cmd);
    assert!(exec_outcome(&steps, &vec![true, true, true], &mut nb2).is_ok());
    assert_eq!(nb2, 8);
}

#[test]
fn reread_changes_only_what_changed() {
    let (mut tm, _) = launched();
    let second = "web:\n  nginx:\n    cmd: /usr/sbin/nginx\n    numprocs: 3\ncache:\n  redis:\n    cmd: /usr/bin/redis\n";
    let a = tm.reread(configs(second));
    assert_eq!(
        acts(&a),
        vec!["remove db:pg", "spawn cache:redis 1", "reread web:nginx 3", "spawn web:nginx 3"]
    );
    assert_eq!(
        steps_of(&tm, vec![Target::ALL]),
        vec!["web:nginx:0", "web:nginx:1", "web:nginx:2", "cache:redis:0"]
    );
}

#[test]
fn reread_shrinks_a_group() {
    let (mut tm, _) = launched();
    let second = "web:\n  nginx:\n    cmd: /usr/sbin/nginx\n    numprocs: 1\ndb:\n  pg:\n    cmd: /usr/bin/postgres\n";
    let a = tm.reread(configs(second));
    assert_eq!(acts(&a), vec!["pop web:nginx", "reread web:nginx 1", "reread db:pg 1"]);
}

#[test]
fn reread_restarts_on_fatal_change() {
    let (mut tm, _) = launched();
    let second = "web:\n  nginx:\n    cmd: /usr/sbin/nginx -q\n    numprocs: 2\ndb:\n  pg:\n    cmd: /usr/bin/postgres\n";
    let a = tm.reread(configs(second));
    assert_eq!(
        acts(&a),
        vec!["remove web:nginx", "spawn web:nginx 2", "spawn web:nginx 2", "reread db:pg 1"]
    );
}

/// Applies the actions to the threads' configurations (their command lines),
/// as the daemon does.
fn apply_configs(table: &mut HashMap<(String, String), Vec<String>>, v: &[ThreadAction]) {
    for a in v {
        match a {
            ThreadAction::Spawn { service, process, config } => {
                table.entry((service.clone(), process.clone())).or_insert_with(Vec::new).push(config.argv.clone());
            }
            ThreadAction::Pop { service, process } => {
                if let Some(t) = table.get_mut(&(service.clone(), process.clone())) {
                    t.pop();
                }
            }
            ThreadAction::RemoveGroup { service, process } => {
                table.remove(&(service.clone(), process.clone()));
            }
            ThreadAction::Reread { service, process, config } => {
                if let Some(t) = table.get_mut(&(service.clone(), process.clone())) {
                    for c in t.iter_mut() {
                        *c = config.argv.clone();
                    }
                }
            }
        }
    }
    table.retain(|_, t| !t.is_empty());
}

/// What the configuration asks for: each program's processes, each running
/// its command line.
fn wanted(cs: &[ServiceConfig]) -> HashMap<(String, String), Vec<String>> {
    let mut m = HashMap::new();
    for s in cs {
        for c in &s.processes {
            m.insert((s.name.clone(), c.name.clone()), vec![c.argv.clone(); c.numprocs]);
        }
    }
    m
}

#[test]
fn reread_actions_reach_the_new_table() {
    let (mut tm, a) = launched();
    let mut table = HashMap::new();
    apply(&mut table, &a);
    assert_eq!(table, counts(&tm));
    let mut threads = HashMap::new();
    apply_configs(&mut threads, &a);
    assert_eq!(threads, wanted(&configs(FIRST)));
    let texts = [
        "web:\n  nginx:\n    cmd: /usr/sbin/nginx\n    numprocs: 3\ncache:\n  redis:\n    cmd: r\n    numprocs: 2\n",
        "web:\n  nginx:\n    cmd: /usr/sbin/nginx -q\n  extra:\n    cmd: e\ncache:\n  redis:\n    cmd: r\n",
        "cache:\n  redis:\n    cmd: r2\n    numprocs: 4\n",
        "cache:\n  redis:\n    cmd: r2\n    numprocs: 2\n    stoptime: 3\n",
        "web:\n  nginx:\n    cmd: n\n",
    ];
    for t in texts.iter() {
        let a = tm.reread(configs(t));
        apply(&mut table, &a);
        assert_eq!(table, counts(&tm));
        apply_configs(&mut threads, &a);
        assert_eq!(threads, wanted(&configs(t)));
    }
}

#[test]
fn second_reread_of_the_same_configuration_changes_nothing() {
    let (mut tm, _) = launched();
    let second = "web:\n  nginx:\n    cmd: /usr/sbin/nginx -q\n    numprocs: 3\ncache:\n  redis:\n    cmd: r\n";
    let first = tm.reread(configs(second));
    assert!(!first.is_empty());
    let before = steps_of(&tm, vec![Target::ALL]);
    let again = tm.reread(configs(second));
    assert_eq!(acts(&again), vec!["reread web:nginx 3", "reread cache:redis 1"]);
    assert_eq!(steps_of(&tm, vec![Target::ALL]), before);
}

#[test]
fn reload_stops_everything_then_launches() {
    let (mut tm, a) = launched();
    let mut threads = HashMap::new();
    apply_configs(&mut threads, &a);
    let second = "cache:\n  redis:\n    cmd: r\n    numprocs: 2\nweb:\n  nginx:\n    cmd: /usr/sbin/nginx\n";
    let r = tm.reload(configs(second));
    assert_eq!(
        acts(&r),
        vec!["remove web:nginx", "remove db:pg", "spawn cache:redis 2", "spawn cache:redis 2", "spawn web:nginx 1"]
    );
    apply_configs(&mut threads, &r);
    assert_eq!(threads, wanted(&configs(second)));
    assert_eq!(steps_of(&tm, vec![Target::ALL]), vec!["cache:redis:0", "cache:redis:1", "web:nginx:0"]);
}
