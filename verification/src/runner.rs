//! A runner that starts every program of the `programs` section once and
//! waits for each: how it reads a program from YAML, with its defaults.
use vstd::prelude::*;
use crate::yaml::{YamlValue, index, index_node, load_yaml, yaml_documents, nesting_bound, nesting_within_limit, NESTING_LIMIT};
use crate::tm_mod::config::{text_of, number_of, flag_of, text_or_empty, int_or_zero, env_all_text, codes_all_int,
    env_pairs, codes_of, text_field, number_field, flag_field};
use crate::task_master::process::opt_text;
use crate::text::{split_on, split_seq, lemma_split_nonempty};
use crate::tm_mod::service::thread::process::nanos;

verus! {

/// A program to run; durations are whole seconds.
#[derive(Debug)]
pub struct Process {
    pub name: String,
    pub argv: String,
    pub workingdir: Option<String>,
    pub autostart: bool,
    pub env: Option<Vec<(String, String)>>,
    pub stdout: Option<String>,
    pub stderr: Option<String>,
    pub exitcodes: Vec<i64>,
    pub startretries: i64,
    pub umask: i64,
    pub autorestart: i64,
    pub starttime: u64,
    pub stopsignal: i64,
    pub stoptime: u64,
    pub numprocs: i64,
}

pub struct ProcessView {
    pub name: Seq<char>,
    pub argv: Seq<char>,
    pub workingdir: Option<Seq<char>>,
    pub autostart: bool,
    pub env: Option<Seq<(Seq<char>, Seq<char>)>>,
    pub stdout: Option<Seq<char>>,
    pub stderr: Option<Seq<char>>,
    pub exitcodes: Seq<i64>,
    pub startretries: i64,
    pub umask: i64,
    pub autorestart: i64,
    pub starttime: u64,
    pub stopsignal: i64,
    pub stoptime: u64,
    pub numprocs: i64,
}

impl View for Process {
    type V = ProcessView;

    open spec fn view(&self) -> ProcessView {
        ProcessView {
            name: self.name@,
            argv: self.argv@,
            workingdir: self.workingdir.deep_view(),
            autostart: self.autostart,
            env: self.env.deep_view(),
            stdout: self.stdout.deep_view(),
            stderr: self.stderr.deep_view(),
            exitcodes: self.exitcodes@,
            startretries: self.startretries,
            umask: self.umask,
            autorestart: self.autorestart,
            starttime: self.starttime,
            stopsignal: self.stopsignal,
            stoptime: self.stoptime,
            numprocs: self.numprocs,
        }
    }
}

impl DeepView for Process {
    type V = ProcessView;

    open spec fn deep_view(&self) -> ProcessView {
        self@
    }
}

pub open spec fn or_default<T>(v: Option<T>, d: T) -> T {
    match v {
        Some(x) => x,
        None => d,
    }
}

pub open spec fn secs_or(v: Option<i64>, d: u64) -> u64 {
    match v {
        Some(i) => i as u64,
        None => d,
    }
}

/// The program the values describe, each missing one taking its default:
/// autostart true, exitcodes 1 and 2, 3 start retries, umask 700,
/// autorestart 0, 1 s start time, stop signal 0, 10 s stop time, one process.
pub open spec fn process_from(
    name: Seq<char>,
    argv: Seq<char>,
    workingdir: Option<Seq<char>>,
    autostart: Option<bool>,
    env: Option<Seq<(Seq<char>, Seq<char>)>>,
    stdout: Option<Seq<char>>,
    stderr: Option<Seq<char>>,
    exitcodes: Option<Seq<i64>>,
    startretries: Option<i64>,
    umask: Option<i64>,
    autorestart: Option<i64>,
    starttime: Option<i64>,
    stopsignal: Option<i64>,
    stoptime: Option<i64>,
    numprocs: Option<i64>,
) -> ProcessView {
    ProcessView {
        name,
        argv,
        workingdir,
        autostart: or_default(autostart, true),
        env,
        stdout,
        stderr,
        exitcodes: or_default(exitcodes, seq![1i64, 2i64]),
        startretries: or_default(startretries, 3i64),
        umask: or_default(umask, 700i64),
        autorestart: or_default(autorestart, 0i64),
        starttime: secs_or(starttime, 1),
        stopsignal: or_default(stopsignal, 0i64),
        stoptime: secs_or(stoptime, 10),
        numprocs: or_default(numprocs, 1i64),
    }
}

fn owned(t: Option<&str>) -> (r: Option<String>)
    ensures
        r.deep_view() == opt_text(t),
{
    match t {
        Some(s) => Some(s.to_owned()),
        None => None,
    }
}

impl Process {
    pub fn new(
        name: String,
        argv: String,
        workingdir: Option<&str>,
        autostart: Option<bool>,
        env: Option<Vec<(String, String)>>,
        stdout: Option<&str>,
        stderr: Option<&str>,
        exitcodes: Option<Vec<i64>>,
        startretries: Option<i64>,
        umask: Option<i64>,
        autorestart: Option<i64>,
        starttime: Option<i64>,
        stopsignal: Option<i64>,
        stoptime: Option<i64>,
        numprocs: Option<i64>,
    ) -> (p: Process)
        ensures
            p@ == process_from(
                name@,
                argv@,
                opt_text(workingdir),
                autostart,
                env.deep_view(),
                opt_text(stdout),
                opt_text(stderr),
                match exitcodes {
                    Some(v) => Some(v@),
                    None => None,
                },
                startretries,
                umask,
                autorestart,
                starttime,
                stopsignal,
                stoptime,
                numprocs,
            ),
    {
        let codes = match exitcodes {
            Some(v) => v,
            None => {
                let mut d: Vec<i64> = Vec::new();
                d.push(1);
                d.push(2);
                proof {
                    assert(d@ =~= seq![1i64, 2i64]);
                }
                d
            },
        };
        Process {
            name,
            argv,
            workingdir: owned(workingdir),
            autostart: match autostart {
                Some(value) => value,
                None => true,
            },
            env,
            stdout: owned(stdout),
            stderr: owned(stderr),
            exitcodes: codes,
            startretries: match startretries {
                Some(i) => i,
                None => 3,
            },
            umask: match umask {
                Some(i) => i,
                None => 700,
            },
            autorestart: match autorestart {
                Some(i) => i,
                None => 0,
            },
            starttime: match starttime {
                Some(i) => i as u64,
                None => 1,
            },
            stopsignal: match stopsignal {
                Some(i) => i,
                None => 0,
            },
            stoptime: match stoptime {
                Some(i) => i as u64,
                None => 10,
            },
            numprocs: match numprocs {
                Some(i) => i,
                None => 1,
            },
        }
    }
}

/// A program entry can be read: its name and its `cmd` are texts, its `env`
/// names and values are texts, and its `exitcodes` elements integers.
pub open spec fn command_readable(name: YamlValue, c: YamlValue) -> bool {
    &&& name is Str
    &&& index_node(c, "cmd"@) is Str
    &&& env_all_text(index_node(c, "env"@))
    &&& codes_all_int(index_node(c, "exitcodes"@))
}

/// The program that an entry of the `programs` section describes; an option
/// of the wrong type counts as missing.
pub open spec fn process_of(name: YamlValue, c: YamlValue) -> ProcessView {
    process_from(
        text_or_empty(name),
        text_or_empty(index_node(c, "cmd"@)),
        text_of(index_node(c, "workingdir"@)),
        flag_of(index_node(c, "autostart"@)),
        match index_node(c, "env"@) {
            YamlValue::Hash(es) => Some(
                es@.map_values(|e: (YamlValue, YamlValue)| (text_or_empty(e.0), text_or_empty(e.1))),
            ),
            _ => None,
        },
        text_of(index_node(c, "stdout"@)),
        text_of(index_node(c, "stderr"@)),
        match index_node(c, "exitcodes"@) {
            YamlValue::Array(v) => Some(v@.map_values(|x: YamlValue| int_or_zero(x))),
            YamlValue::Int(i) => Some(seq![i]),
            _ => None,
        },
        number_of(index_node(c, "startretries"@)),
        number_of(index_node(c, "umask"@)),
        number_of(index_node(c, "autorestart"@)),
        number_of(index_node(c, "starttime"@)),
        number_of(index_node(c, "stopsignal"@)),
        number_of(index_node(c, "stoptime"@)),
        number_of(index_node(c, "numprocs"@)),
    )
}

/// Reads one entry of the `programs` section.
pub fn exec_command(name: &YamlValue, config: &YamlValue) -> (p: Process)
    requires
        command_readable(*name, *config),
    ensures
        p@ == process_of(*name, *config),
{
    let name = match name {
        YamlValue::Str(s) => s.clone(),
        _ => String::new(),
    };
    let cmd = match text_field(config, "cmd") {
        Some(s) => s,
        None => String::new(),
    };
    let env = match index(config, "env") {
        Some(YamlValue::Hash(es)) => Some(env_pairs(es)),
        _ => None,
    };
    let exitcodes = match index(config, "exitcodes") {
        Some(YamlValue::Array(v)) => Some(codes_of(v)),
        Some(YamlValue::Int(i)) => {
            let mut one: Vec<i64> = Vec::new();
            one.push(*i);
            proof {
                assert(one@ =~= seq![*i]);
            }
            Some(one)
        },
        _ => None,
    };
    let workingdir = text_field(config, "workingdir");
    let stdout = text_field(config, "stdout");
    let stderr = text_field(config, "stderr");
    let wd: Option<&str> = match &workingdir {
        Some(s) => Some(s.as_str()),
        None => None,
    };
    let so: Option<&str> = match &stdout {
        Some(s) => Some(s.as_str()),
        None => None,
    };
    let se: Option<&str> = match &stderr {
        Some(s) => Some(s.as_str()),
        None => None,
    };
    Process::new(
        name,
        cmd,
        wd,
        flag_field(config, "autostart"),
        env,
        so,
        se,
        exitcodes,
        number_field(config, "startretries"),
        number_field(config, "umask"),
        number_field(config, "autorestart"),
        number_field(config, "starttime"),
        number_field(config, "stopsignal"),
        number_field(config, "stoptime"),
        number_field(config, "numprocs"),
    )
}

/// The `programs` section of the first document can be read.
pub open spec fn programs_readable(docs: Seq<YamlValue>) -> bool {
    &&& docs.len() > 0
    &&& match index_node(docs[0], "programs"@) {
        YamlValue::Hash(es) => forall|i: int| 0 <= i < es@.len() ==> command_readable(#[trigger] es@[i].0, es@[i].1),
        _ => false,
    }
}

/// The entries of the `programs` section.
pub open spec fn program_entries(docs: Seq<YamlValue>) -> Seq<(YamlValue, YamlValue)> {
    match index_node(docs[0], "programs"@) {
        YamlValue::Hash(es) => es@,
        _ => Seq::<(YamlValue, YamlValue)>::empty(),
    }
}

fn entry_readable(name: &YamlValue, c: &YamlValue) -> (r: bool)
    ensures
        r == command_readable(*name, *c),
{
    let named = match name {
        YamlValue::Str(_) => true,
        _ => false,
    };
    if !named {
        return false;
    }
    match index(c, "cmd") {
        Some(YamlValue::Str(_)) => {},
        _ => {
            return false;
        },
    }
    match index(c, "env") {
        Some(YamlValue::Hash(es)) => {
            let n = es.len();
            let mut i: usize = 0;
            while i < n
                invariant
                    n == es.len(),
                    i <= n,
                    forall|j: int| 0 <= j < i ==> (#[trigger] es@[j]).0 is Str && es@[j].1 is Str,
                    index_node(*c, "env"@) == YamlValue::Hash(*es),
                decreases n - i,
            {
                let ok = match (&es[i].0, &es[i].1) {
                    (YamlValue::Str(_), YamlValue::Str(_)) => true,
                    _ => false,
                };
                if !ok {
                    assert(!(es@[i as int].0 is Str && es@[i as int].1 is Str));
                    return false;
                }
                i = i + 1;
            }
        },
        _ => {},
    }
    match index(c, "exitcodes") {
        Some(YamlValue::Array(v)) => {
            let n = v.len();
            let mut i: usize = 0;
            while i < n
                invariant
                    n == v.len(),
                    i <= n,
                    forall|j: int| 0 <= j < i ==> (#[trigger] v@[j]) is Int,
                    index_node(*c, "exitcodes"@) == YamlValue::Array(*v),
                    *name is Str,
                    index_node(*c, "cmd"@) is Str,
                    env_all_text(index_node(*c, "env"@)),
                decreases n - i,
            {
                let ok = match &v[i] {
                    YamlValue::Int(_) => true,
                    _ => false,
                };
                if !ok {
                    assert(!(v@[i as int] is Int));
                    return false;
                }
                i = i + 1;
            }
        },
        _ => {},
    }
    true
}

/// The `programs` section of the first document can be read.
pub fn check_programs(docs: &Vec<YamlValue>) -> (r: bool)
    ensures
        r == programs_readable(docs@),
{
    if docs.len() == 0 {
        return false;
    }
    match index(&docs[0], "programs") {
        Some(YamlValue::Hash(es)) => {
            let n = es.len();
            let mut i: usize = 0;
            while i < n
                invariant
                    n == es.len(),
                    i <= n,
                    forall|j: int| 0 <= j < i ==> command_readable(#[trigger] es@[j].0, es@[j].1),
                    docs@.len() > 0,
                    index_node(docs@[0], "programs"@) == YamlValue::Hash(*es),
                decreases n - i,
            {
                if !entry_readable(&es[i].0, &es[i].1) {
                    proof {
                        let e = index_node(docs@[0], "programs"@);
                        assert(!command_readable(es@[i as int].0, es@[i as int].1));
                        match e {
                            YamlValue::Hash(es2) => {
                                assert(es2@ == es@);
                                assert(!command_readable(es2@[i as int].0, es2@[i as int].1));
                            },
                            _ => {},
                        }
                    }
                    return false;
                }
                i = i + 1;
            }
            true
        },
        _ => false,
    }
}

/// Reads every entry of the `programs` section, in order.
pub fn parse_config_file(docs: &Vec<YamlValue>) -> (ps: Vec<Process>)
    requires
        programs_readable(docs@),
    ensures
        ps.deep_view() == program_entries(docs@).map_values(|e: (YamlValue, YamlValue)| process_of(e.0, e.1)),
{
    let ghost target = program_entries(docs@).map_values(|e: (YamlValue, YamlValue)| process_of(e.0, e.1));
    let mut ps: Vec<Process> = Vec::new();
    match index(&docs[0], "programs") {
        Some(YamlValue::Hash(es)) => {
            let n = es.len();
            let mut i: usize = 0;
            while i < n
                invariant
                    n == es.len(),
                    i <= n,
                    es@ == program_entries(docs@),
                    forall|j: int| 0 <= j < es@.len() ==> command_readable(#[trigger] es@[j].0, es@[j].1),
                    target == program_entries(docs@).map_values(|e: (YamlValue, YamlValue)| process_of(e.0, e.1)),
                    ps.deep_view() == target.take(i as int),
                decreases n - i,
            {
                let ghost b = ps.deep_view();
                let p = exec_command(&es[i].0, &es[i].1);
                ps.push(p);
                proof {
                    assert(ps.deep_view() =~= b.push(p@));
                    assert(target.take(i + 1) =~= target.take(i as int).push(target[i as int]));
                }
                i = i + 1;
            }
            proof {
                assert(target.take(n as int) =~= target);
            }
        },
        _ => {
            proof {
                assert(false);
            }
        },
    }
    ps
}

/// Reads the programs of a configuration text: the YAML documents it holds,
/// then every entry of the `programs` section of the first, in order. `None`
/// when the text may nest too deeply to be parsed, is no YAML, or that section
/// cannot be read.
pub fn read_programs(text: &str) -> (r: Option<Vec<Process>>)
    ensures
        nesting_bound(text@) > NESTING_LIMIT ==> r is None,
        nesting_bound(text@) <= NESTING_LIMIT ==> match yaml_documents(text@) {
            Some(docs) => if programs_readable(docs) {
                r matches Some(ps) && ps.deep_view() == program_entries(docs).map_values(
                    |e: (YamlValue, YamlValue)| process_of(e.0, e.1),
                )
            } else {
                r is None
            },
            None => r is None,
        },
{
    if !nesting_within_limit(text) {
        return None;
    }
    match load_yaml(text) {
        None => None,
        Some(docs) => {
            if check_programs(&docs) {
                Some(parse_config_file(&docs))
            } else {
                None
            }
        },
    }
}

/// The arguments that the command line `argv` passes: what follows each
/// space, when it is longer than one byte.
pub fn command_args(argv: &str) -> (r: Vec<&str>)
    ensures
        r@.map_values(|p: &str| p@) == if argv.len() > 1 {
            split_seq(argv@, ' ').drop_first()
        } else {
            Seq::<Seq<char>>::empty()
        },
{
    let mut r: Vec<&str> = Vec::new();
    if argv.len() > 1 {
        let pieces = split_on(argv, ' ');
        let ghost ps = pieces@.map_values(|p: &str| p@);
        proof {
            lemma_split_nonempty(argv@, ' ');
            assert(r@.map_values(|p: &str| p@) =~= ps.subrange(1, 1));
        }
        let n = pieces.len();
        let mut i: usize = 1;
        while i < n
            invariant
                n == pieces.len(),
                1 <= i <= n,
                ps == pieces@.map_values(|p: &str| p@),
                r@.map_values(|p: &str| p@) == ps.subrange(1, i as int),
            decreases n - i,
        {
            let ghost b = r@.map_values(|p: &str| p@);
            r.push(pieces[i]);
            proof {
                assert(r@.map_values(|p: &str| p@) =~= b.push(pieces[i as int]@));
                assert(ps.subrange(1, i + 1) =~= ps.subrange(1, i as int).push(ps[i as int]));
            }
            i = i + 1;
        }
        proof {
            assert(ps.subrange(1, n as int) =~= ps.drop_first());
        }
    } else {
        proof {
            assert(r@.map_values(|p: &str| p@) =~= Seq::<Seq<char>>::empty());
        }
    }
    r
}

impl Process {
    /// A program that ended `elapsed` nanoseconds after it was spawned ended
    /// before its start time, and must be started again.
    pub fn must_restart(&self, elapsed: u128) -> (r: bool)
        ensures
            r == (elapsed < nanos(self.starttime)),
    {
        assert(self.starttime * 1_000_000_000 <= u128::MAX) by (nonlinear_arith)
            requires self.starttime <= u64::MAX;
        elapsed < (self.starttime as u128) * 1_000_000_000
    }
}

/// The runner reads a program's `env` exactly as the daemon and the first
/// supervisor read it: when the option is a mapping, the environment holds
/// one (name, value) pair per entry, in document order, each the entry's
/// texts; otherwise it holds nothing.
pub proof fn lemma_runner_env(name: YamlValue, c: YamlValue)
    ensures
        process_of(name, c).env == crate::tm_mod::config::config_of(text_or_empty(name), text_or_empty(index_node(c, "cmd"@)), c).env,
        process_of(name, c).env == crate::task_master::process::config_of_yaml(
            text_or_empty(name),
            text_or_empty(index_node(c, "cmd"@)),
            c,
        ).env,
        match index_node(c, "env"@) {
            YamlValue::Hash(es) => process_of(name, c).env matches Some(e) && e.len() == es@.len() && forall|i: int|
                0 <= i < es@.len() ==> (text_of(#[trigger] es@[i].0) matches Some(k) ==> e[i].0 == k) && (text_of(
                es@[i].1,
            ) matches Some(v) ==> e[i].1 == v),
            _ => process_of(name, c).env is None,
        },
{
}

} // verus!
