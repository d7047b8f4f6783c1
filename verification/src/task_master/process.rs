//! A program's configuration from optional values, and the launch decisions
//! of its watch.
use vstd::prelude::*;
use crate::text::same_text;
use crate::yaml::{YamlValue, index, index_node};
use crate::tm_mod::config::{text_of, number_of, flag_of, text_or_empty, int_or_zero, env_all_text, codes_all_int, env_pairs, codes_of, text_field, number_field, flag_field};
use crate::tm_mod::service::thread::process::{WaitStatus, nanos};

verus! {

#[derive(Debug, Clone, Copy, PartialEq, Eq, Structural)]
pub enum Autorestart {
    TRUE,
    FALSE,
    UNEXPECTED,
}

/// The Config struct represents all the informations we want
/// to have about a single process we are supervising.
/// Durations are whole seconds.
#[derive(Debug)]
pub struct Config {
    pub name: String,
    pub argv: String,
    pub workingdir: Option<String>,
    pub autostart: bool,
    pub env: Option<Vec<(String, String)>>,
    pub stdout: Option<String>,
    pub stderr: Option<String>,
    pub exitcodes: Vec<i64>,
    pub startretries: u64,
    pub umask: i64,
    pub autorestart: Autorestart,
    pub starttime: u64,
    pub stopsignal: i64,
    pub stoptime: u64,
    pub numprocs: i64,
}

pub struct ConfigView {
    pub name: Seq<char>,
    pub argv: Seq<char>,
    pub workingdir: Option<Seq<char>>,
    pub autostart: bool,
    pub env: Option<Seq<(Seq<char>, Seq<char>)>>,
    pub stdout: Option<Seq<char>>,
    pub stderr: Option<Seq<char>>,
    pub exitcodes: Seq<i64>,
    pub startretries: u64,
    pub umask: i64,
    pub autorestart: Autorestart,
    pub starttime: u64,
    pub stopsignal: i64,
    pub stoptime: u64,
    pub numprocs: i64,
}

impl View for Config {
    type V = ConfigView;

    open spec fn view(&self) -> ConfigView {
        ConfigView {
            name: self.name@,
            argv: self.argv@,
            workingdir: self.workingdir.deep_view(),
            autostart: self.autostart,
            env: self.env.deep_view(),
            stdout: self.stdout.deep_view(),
            stderr: self.stderr.deep_view(),
            exitcodes: self.exitcodes@,
            startretries: self.startretries,
            umask: self.umask,
            autorestart: self.autorestart,
            starttime: self.starttime,
            stopsignal: self.stopsignal,
            stoptime: self.stoptime,
            numprocs: self.numprocs,
        }
    }
}

/// The autorestart policy a text names.
pub open spec fn autorestart_named(t: Seq<char>) -> Option<Autorestart> {
    if t == "unexpected"@ {
        Some(Autorestart::UNEXPECTED)
    } else if t == "true"@ {
        Some(Autorestart::TRUE)
    } else if t == "false"@ {
        Some(Autorestart::FALSE)
    } else {
        None
    }
}

pub open spec fn opt_text(t: Option<&str>) -> Option<Seq<char>> {
    match t {
        Some(s) => Some(s@),
        None => None,
    }
}

/// The configuration the given values describe, each missing one taking its
/// default: autostart true, exitcodes 1 and 2, 3 start retries, umask 700,
/// autorestart on unexpected exits, 1 s start time, stop signal 0, 10 s stop
/// time, one process.
pub open spec fn config_from(
    name: Seq<char>,
    argv: Seq<char>,
    workingdir: Option<Seq<char>>,
    autostart: Option<bool>,
    env: Option<Seq<(Seq<char>, Seq<char>)>>,
    stdout: Option<Seq<char>>,
    stderr: Option<Seq<char>>,
    exitcodes: Option<Seq<i64>>,
    startretries: Option<i64>,
    umask: Option<i64>,
    autorestart: Option<Seq<char>>,
    starttime: Option<i64>,
    stopsignal: Option<i64>,
    stoptime: Option<i64>,
    numprocs: Option<i64>,
) -> ConfigView {
    ConfigView {
        name,
        argv,
        workingdir,
        autostart: match autostart {
            Some(v) => v,
            None => true,
        },
        env,
        stdout,
        stderr,
        exitcodes: match exitcodes {
            Some(v) => v,
            None => seq![1i64, 2i64],
        },
        startretries: match startretries {
            Some(i) => i as u64,
            None => 3,
        },
        umask: match umask {
            Some(i) => i,
            None => 700,
        },
        autorestart: match autorestart {
            Some(t) => match autorestart_named(t) {
                Some(a) => a,
                None => Autorestart::UNEXPECTED,
            },
            None => Autorestart::UNEXPECTED,
        },
        starttime: match starttime {
            Some(i) => i as u64,
            None => 1,
        },
        stopsignal: match stopsignal {
            Some(i) => i,
            None => 0,
        },
        stoptime: match stoptime {
            Some(i) => i as u64,
            None => 10,
        },
        numprocs: match numprocs {
            Some(i) => i,
            None => 1,
        },
    }
}

/// A program's options can be read: `env` names and values are texts,
/// `exitcodes` elements are integers, and `autorestart` is a known policy.
pub open spec fn yaml_readable(c: YamlValue) -> bool {
    &&& env_all_text(index_node(c, "env"@))
    &&& codes_all_int(index_node(c, "exitcodes"@))
    &&& (text_of(index_node(c, "autorestart"@)) matches Some(t) ==> autorestart_named(t) is Some)
}

/// The configuration that a program's YAML options describe; an option of
/// the wrong type counts as missing.
pub open spec fn config_of_yaml(name: Seq<char>, argv: Seq<char>, c: YamlValue) -> ConfigView {
    let ex = index_node(c, "exitcodes"@);
    config_from(
        name,
        argv,
        text_of(index_node(c, "workingdir"@)),
        flag_of(index_node(c, "autostart"@)),
        match index_node(c, "env"@) {
            YamlValue::Hash(es) => Some(
                es@.map_values(|e: (YamlValue, YamlValue)| (text_or_empty(e.0), text_or_empty(e.1))),
            ),
            _ => None,
        },
        text_of(index_node(c, "stdout"@)),
        text_of(index_node(c, "stderr"@)),
        match ex {
            YamlValue::Array(v) => Some(v@.map_values(|x: YamlValue| int_or_zero(x))),
            YamlValue::Int(i) => Some(seq![i]),
            _ => None,
        },
        number_of(index_node(c, "startretries"@)),
        number_of(index_node(c, "umask"@)),
        text_of(index_node(c, "autorestart"@)),
        number_of(index_node(c, "starttime"@)),
        number_of(index_node(c, "stopsignal"@)),
        number_of(index_node(c, "stoptime"@)),
        number_of(index_node(c, "numprocs"@)),
    )
}

fn owned(t: Option<&str>) -> (r: Option<String>)
    ensures
        r.deep_view() == opt_text(t),
{
    match t {
        Some(s) => Some(s.to_owned()),
        None => None,
    }
}

impl Config {
    /// Function to generate a new instance of a Config struct.
    /// Only mandatory arguments are name and command.
    /// Other arguments can be skipped by giving `None`.
    pub fn new(
        name: String,
        argv: String,
        workingdir: Option<&str>,
        autostart: Option<bool>,
        env: Option<Vec<(String, String)>>,
        stdout: Option<&str>,
        stderr: Option<&str>,
        exitcodes: Option<Vec<i64>>,
        startretries: Option<i64>,
        umask: Option<i64>,
        autorestart: Option<&str>,
        starttime: Option<i64>,
        stopsignal: Option<i64>,
        stoptime: Option<i64>,
        numprocs: Option<i64>,
    ) -> (c: Config)
        requires
            autorestart matches Some(t) ==> autorestart_named(t@) is Some,
        ensures
            c@ == config_from(
                name@,
                argv@,
                opt_text(workingdir),
                autostart,
                env.deep_view(),
                opt_text(stdout),
                opt_text(stderr),
                match exitcodes {
                    Some(v) => Some(v@),
                    None => None,
                },
                startretries,
                umask,
                opt_text(autorestart),
                starttime,
                stopsignal,
                stoptime,
                numprocs,
            ),
    {
        let codes = match exitcodes {
            Some(v) => v,
            None => {
                let mut d: Vec<i64> = Vec::new();
                d.push(1);
                d.push(2);
                d
            },
        };
        let c = Config {
            name,
            argv,
            workingdir: owned(workingdir),
            autostart: match autostart {
                Some(value) => value,
                None => true,
            },
            env,
            stdout: owned(stdout),
            stderr: owned(stderr),
            exitcodes: codes,
            startretries: match startretries {
                Some(i) => i as u64,
                None => 3,
            },
            umask: match umask {
                Some(i) => i,
                None => 700,
            },
            autorestart: match autorestart {
                Some(slice) => if same_text(slice, "unexpected") {
                    Autorestart::UNEXPECTED
                } else if same_text(slice, "true") {
                    Autorestart::TRUE
                } else {
                    Autorestart::FALSE
                },
                None => Autorestart::UNEXPECTED,
            },
            starttime: match starttime {
                Some(i) => i as u64,
                None => 1,
            },
            stopsignal: match stopsignal {
                Some(i) => i,
                None => 0,
            },
            stoptime: match stoptime {
                Some(i) => i as u64,
                None => 10,
            },
            numprocs: match numprocs {
                Some(i) => i,
                None => 1,
            },
        };
        proof {
            assert(c.exitcodes@ =~= config_from(
                name@,
                argv@,
                opt_text(workingdir),
                autostart,
                c.env.deep_view(),
                opt_text(stdout),
                opt_text(stderr),
                match exitcodes {
                    Some(v) => Some(v@),
                    None => None,
                },
                startretries,
                umask,
                opt_text(autorestart),
                starttime,
                stopsignal,
                stoptime,
                numprocs,
            ).exitcodes);
        }
        c
    }

    /// Creates a Config instance from the process name and a
    /// YAML mapping representing the config options.
    pub fn from_yaml(name: &str, argv: &str, config: &YamlValue) -> (c: Config)
        requires
            yaml_readable(*config),
        ensures
            c@ == config_of_yaml(name@, argv@, *config),
    {
        // env is represented by a nested YAML into the current
        // config. Parsing it as a tuple of key, value.
        let env = match index(config, "env") {
            Some(YamlValue::Hash(es)) => Some(env_pairs(es)),
            _ => None,
        };
        // Exitcodes can be either one field, or many.
        let exitcodes = match index(config, "exitcodes") {
            Some(YamlValue::Array(v)) => Some(codes_of(v)),
            Some(YamlValue::Int(i)) => {
                let mut one: Vec<i64> = Vec::new();
                one.push(*i);
                proof {
                    assert(one@ =~= seq![*i]);
                }
                Some(one)
            },
            _ => None,
        };
        let workingdir = text_field(config, "workingdir");
        let stdout = text_field(config, "stdout");
        let stderr = text_field(config, "stderr");
        let autorestart = text_field(config, "autorestart");
        let wd: Option<&str> = match &workingdir {
            Some(s) => Some(s.as_str()),
            None => None,
        };
        let so: Option<&str> = match &stdout {
            Some(s) => Some(s.as_str()),
            None => None,
        };
        let se: Option<&str> = match &stderr {
            Some(s) => Some(s.as_str()),
            None => None,
        };
        let ar: Option<&str> = match &autorestart {
            Some(s) => Some(s.as_str()),
            None => None,
        };
        Config::new(
            name.to_owned(),
            argv.to_owned(),
            wd,
            flag_field(config, "autostart"),
            env,
            so,
            se,
            exitcodes,
            number_field(config, "startretries"),
            number_field(config, "umask"),
            ar,
            number_field(config, "starttime"),
            number_field(config, "stopsignal"),
            number_field(config, "stoptime"),
            number_field(config, "numprocs"),
        )
    }
}


fn as_nanos(secs: u64) -> (r: u128)
    ensures
        r == nanos(secs),
{
    assert(secs * 1_000_000_000 <= u128::MAX) by (nonlinear_arith)
        requires secs <= u64::MAX;
    (secs as u128) * 1_000_000_000
}

fn contains_code(codes: &Vec<i64>, c: i64) -> (r: bool)
    ensures
        r == codes@.contains(c),
{
    let n = codes.len();
    let mut i: usize = 0;
    while i < n
        invariant
            n == codes.len(),
            i <= n,
            forall|j: int| 0 <= j < i ==> codes@[j] != c,
        decreases n - i,
    {
        if codes[i] == c {
            proof {
                assert(codes@[i as int] == c);
            }
            return true;
        }
        i = i + 1;
    }
    false
}

/// The watch over one program: its configuration and whether a child
/// process is held.
#[derive(Debug)]
pub struct Process {
    pub config: Config,
    pub has_child: bool,
}

impl Process {
    pub fn new(config: Config) -> (p: Process)
        ensures
            p.config@ == config@,
            !p.has_child,
    {
        Process { config, has_child: false }
    }

    /// Records whether spawning gave a child; a failed spawn keeps whatever
    /// child was held.
    pub fn spawn(&mut self, ok: bool)
        ensures
            final(self).has_child == (old(self).has_child || ok),
            final(self).config@ == old(self).config@,
    {
        if ok {
            self.has_child = true;
        }
    }

    /// One poll of a launch, `elapsed` nanoseconds after it began: `Some` ends
    /// the launch, telling whether it succeeded. A program still running after
    /// its start time has started; an exit succeeds when it came after the
    /// start time with an expected code.
    pub fn launch_poll(&self, status: WaitStatus, elapsed: u128) -> (r: Option<bool>)
        requires
            !(status is Signaled || status is Ended),
        ensures
            match status {
                WaitStatus::Exited(code) => r == Some(
                    !(elapsed < nanos(self.config@.starttime) || !self.config@.exitcodes.contains(code as i64)),
                ),
                WaitStatus::Running => r == if elapsed > nanos(self.config@.starttime) {
                    Some(true)
                } else {
                    None::<bool>
                },
                _ => r is None,
            },
    {
        let start = as_nanos(self.config.starttime);
        match status {
            WaitStatus::Exited(code) => {
                let expected = contains_code(&self.config.exitcodes, code as i64);
                Some(!(elapsed < start || !expected))
            },
            WaitStatus::Running => {
                if elapsed > start {
                    Some(true)
                } else {
                    None
                }
            },
            _ => None,
        }
    }

    /// After launch attempt number `tries` (from 1): a launch that succeeded
    /// ends with success, and after `startretries` retries with failure.
    pub fn execute_after_try(&self, tries: u64, launched: bool) -> (r: Option<bool>)
        ensures
            r == if launched {
                Some(true)
            } else if tries > self.config@.startretries {
                Some(false)
            } else {
                None::<bool>
            },
    {
        if launched {
            Some(true)
        } else if tries > self.config.startretries {
            Some(false)
        } else {
            None
        }
    }
}

/// Reading a program from its YAML options gives exactly what `Config::new`
/// gives for the options read off them one by one: text options as texts,
/// flags as flags, integers as integers, `env` as its pairs and `exitcodes`
/// as its list or its single integer; an option of another type as missing.
pub proof fn lemma_from_yaml_is_new(name: Seq<char>, argv: Seq<char>, c: YamlValue)
    ensures
        config_of_yaml(name, argv, c) == config_from(
            name,
            argv,
            text_of(index_node(c, "workingdir"@)),
            flag_of(index_node(c, "autostart"@)),
            match index_node(c, "env"@) {
                YamlValue::Hash(es) => Some(
                    es@.map_values(|e: (YamlValue, YamlValue)| (text_or_empty(e.0), text_or_empty(e.1))),
                ),
                _ => None,
            },
            text_of(index_node(c, "stdout"@)),
            text_of(index_node(c, "stderr"@)),
            match index_node(c, "exitcodes"@) {
                YamlValue::Array(v) => Some(v@.map_values(|x: YamlValue| int_or_zero(x))),
                YamlValue::Int(i) => Some(seq![i]),
                _ => None,
            },
            number_of(index_node(c, "startretries"@)),
            number_of(index_node(c, "umask"@)),
            text_of(index_node(c, "autorestart"@)),
            number_of(index_node(c, "starttime"@)),
            number_of(index_node(c, "stopsignal"@)),
            number_of(index_node(c, "stoptime"@)),
            number_of(index_node(c, "numprocs"@)),
        ),
{
}

} // verus!
