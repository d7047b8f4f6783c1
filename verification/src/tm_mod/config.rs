//! The configuration of one supervised program, read from its YAML mapping.
use vstd::prelude::*;
use crate::text::same_text;
use crate::yaml::{YamlValue, index, index_node};

verus! {

#[derive(Debug, Clone, Copy, PartialEq, Eq, Structural)]
pub enum Autorestart {
    TRUE,
    FALSE,
    UNEXPECTED,
}

/// The signals a program can be told to stop with, or that can end it. The
/// last two have no name a configuration can give.
#[derive(Debug, Clone, Copy, PartialEq, Eq, Structural)]
pub enum Signal {
    SIGHUP,
    SIGINT,
    SIGQUIT,
    SIGILL,
    SIGTRAP,
    SIGABRT,
    SIGBUS,
    SIGFPE,
    SIGKILL,
    SIGUSR1,
    SIGSEGV,
    SIGUSR2,
    SIGPIPE,
    SIGALRM,
    SIGTERM,
    SIGCHLD,
    SIGCONT,
    SIGSTOP,
    SIGTSTP,
    SIGTTIN,
    SIGTTOU,
    SIGURG,
    SIGXCPU,
    SIGXFSZ,
    SIGVTALRM,
    SIGPROF,
    SIGWINCH,
    SIGIO,
    SIGSYS,
    SIGEMT,
    SIGINFO,
    SIGSTKFLT,
    SIGPWR,
}

/// The signal a name (without its `SIG` prefix) stands for.
pub open spec fn signal_of(n: Seq<char>) -> Option<Signal> {
    if n == "HUP"@ { Some(Signal::SIGHUP) }
    else if n == "INT"@ { Some(Signal::SIGINT) }
    else if n == "QUIT"@ { Some(Signal::SIGQUIT) }
    else if n == "ILL"@ { Some(Signal::SIGILL) }
    else if n == "TRAP"@ { Some(Signal::SIGTRAP) }
    else if n == "ABRT"@ { Some(Signal::SIGABRT) }
    else if n == "BUS"@ { Some(Signal::SIGBUS) }
    else if n == "FPE"@ { Some(Signal::SIGFPE) }
    else if n == "KILL"@ { Some(Signal::SIGKILL) }
    else if n == "USR1"@ { Some(Signal::SIGUSR1) }
    else if n == "SEGV"@ { Some(Signal::SIGSEGV) }
    else if n == "USR2"@ { Some(Signal::SIGUSR2) }
    else if n == "PIPE"@ { Some(Signal::SIGPIPE) }
    else if n == "ALRM"@ { Some(Signal::SIGALRM) }
    else if n == "TERM"@ { Some(Signal::SIGTERM) }
    else if n == "CHLD"@ { Some(Signal::SIGCHLD) }
    else if n == "CONT"@ { Some(Signal::SIGCONT) }
    else if n == "STOP"@ { Some(Signal::SIGSTOP) }
    else if n == "TSTP"@ { Some(Signal::SIGTSTP) }
    else if n == "TTIN"@ { Some(Signal::SIGTTIN) }
    else if n == "TTOU"@ { Some(Signal::SIGTTOU) }
    else if n == "URG"@ { Some(Signal::SIGURG) }
    else if n == "XCPU"@ { Some(Signal::SIGXCPU) }
    else if n == "XFSZ"@ { Some(Signal::SIGXFSZ) }
    else if n == "VTALRM"@ { Some(Signal::SIGVTALRM) }
    else if n == "PROF"@ { Some(Signal::SIGPROF) }
    else if n == "WINCH"@ { Some(Signal::SIGWINCH) }
    else if n == "IO"@ { Some(Signal::SIGIO) }
    else if n == "SYS"@ { Some(Signal::SIGSYS) }
    else if n == "EMT"@ { Some(Signal::SIGEMT) }
    else if n == "INFO"@ { Some(Signal::SIGINFO) }
    else { None }
}

/// The options a program's mapping may hold.
#[derive(Debug, Clone, Copy, PartialEq, Eq, Structural)]
pub enum Field {
    Cmd,
    Workingdir,
    Autostart,
    Env,
    Stdout,
    Stderr,
    Exitcodes,
    Startretries,
    Umask,
    Autorestart,
    Starttime,
    Stopsignal,
    Stoptime,
    Numprocs,
}

/// The names of the options, in the order the documentation lists them.
pub open spec fn is_valid_field(n: Seq<char>) -> bool {
    ||| n == "cmd"@
    ||| n == "workingdir"@
    ||| n == "autostart"@
    ||| n == "env"@
    ||| n == "stdout"@
    ||| n == "stderr"@
    ||| n == "exitcodes"@
    ||| n == "startretries"@
    ||| n == "umask"@
    ||| n == "autorestart"@
    ||| n == "starttime"@
    ||| n == "stopsignal"@
    ||| n == "stoptime"@
    ||| n == "numprocs"@
}


/// Why a configuration cannot be read. Each is a reason the program refuses
/// to start on such a file.
#[derive(Debug, PartialEq, Eq, Clone)]
pub enum ConfigError {
    /// The text is no valid YAML.
    Unreadable,
    /// The text may nest too deeply to be parsed.
    TooDeeplyNested,
    /// The file holds no document.
    NoDocument,
    /// The document is no mapping of services.
    DocumentNotAMapping,
    /// A service name is no text.
    ServiceNameNotText,
    /// A service is no mapping of programs.
    ServiceNotAMapping(String),
    /// A program name is no text.
    ProcessNameNotText,
    /// A program has no `cmd` text.
    MissingCommand(String),
    /// A program name is already the name of a program or of a service.
    DuplicateProcess(String),
    /// A service name is already the name of a service or of a program.
    DuplicateService(String),
    /// An option holds a value of the wrong type.
    InvalidType(Field),
    /// A name or value of `env` is no text.
    EnvNotText,
    /// An element of an `exitcodes` list is no integer.
    ExitcodeNotInteger,
    /// `stopsignal` names no known signal.
    BadSignal(String),
    /// A program's options are no mapping.
    NotAMapping,
    /// An option name is no text.
    FieldNameNotText,
    /// An option name is unknown.
    BadField(String),
    /// `autorestart` is none of `true`, `false`, `unexpected`.
    BadAutorestart(String),
    /// `numprocs` is not positive.
    NumprocsNotPositive(i64),
}

pub enum ConfigErrorView {
    Unreadable,
    TooDeeplyNested,
    NoDocument,
    DocumentNotAMapping,
    ServiceNameNotText,
    ServiceNotAMapping(Seq<char>),
    ProcessNameNotText,
    MissingCommand(Seq<char>),
    DuplicateProcess(Seq<char>),
    DuplicateService(Seq<char>),
    InvalidType(Field),
    EnvNotText,
    ExitcodeNotInteger,
    BadSignal(Seq<char>),
    NotAMapping,
    FieldNameNotText,
    BadField(Seq<char>),
    BadAutorestart(Seq<char>),
    NumprocsNotPositive(i64),
}

impl View for ConfigError {
    type V = ConfigErrorView;

    open spec fn view(&self) -> ConfigErrorView {
        match self {
            ConfigError::Unreadable => ConfigErrorView::Unreadable,
            ConfigError::TooDeeplyNested => ConfigErrorView::TooDeeplyNested,
            ConfigError::NoDocument => ConfigErrorView::NoDocument,
            ConfigError::DocumentNotAMapping => ConfigErrorView::DocumentNotAMapping,
            ConfigError::ServiceNameNotText => ConfigErrorView::ServiceNameNotText,
            ConfigError::ServiceNotAMapping(n) => ConfigErrorView::ServiceNotAMapping(n@),
            ConfigError::ProcessNameNotText => ConfigErrorView::ProcessNameNotText,
            ConfigError::MissingCommand(n) => ConfigErrorView::MissingCommand(n@),
            ConfigError::DuplicateProcess(n) => ConfigErrorView::DuplicateProcess(n@),
            ConfigError::DuplicateService(n) => ConfigErrorView::DuplicateService(n@),
            ConfigError::InvalidType(f) => ConfigErrorView::InvalidType(*f),
            ConfigError::EnvNotText => ConfigErrorView::EnvNotText,
            ConfigError::ExitcodeNotInteger => ConfigErrorView::ExitcodeNotInteger,
            ConfigError::BadSignal(n) => ConfigErrorView::BadSignal(n@),
            ConfigError::NotAMapping => ConfigErrorView::NotAMapping,
            ConfigError::FieldNameNotText => ConfigErrorView::FieldNameNotText,
            ConfigError::BadField(n) => ConfigErrorView::BadField(n@),
            ConfigError::BadAutorestart(n) => ConfigErrorView::BadAutorestart(n@),
            ConfigError::NumprocsNotPositive(i) => ConfigErrorView::NumprocsNotPositive(*i),
        }
    }
}

/// The Config struct represents all the informations we want
/// to have about a single process we are supervising.
/// Durations are whole seconds.
#[derive(Debug)]
pub struct Config {
    pub name: String,  // fatal
    pub argv: String,  // fatal
    pub workingdir: Option<String>,  // fatal
    pub autostart: bool,  // non-fatal
    pub env: Option<Vec<(String, String)>>,  // fatal
    pub stdout: Option<String>,  // fatal
    pub stderr: Option<String>,  // fatal
    pub exitcodes: Vec<i64>,  // non-fatal
    pub startretries: u64,  // non-fatal
    pub umask: u16,  // fatal
    pub autorestart: Autorestart,  // non-fatal
    pub starttime: u64,  // non-fatal
    pub stopsignal: Signal,  // non-fatal
    pub stoptime: u64,  // non-fatal
    pub numprocs: usize,  // non-fatal
}

pub struct ConfigView {
    pub name: Seq<char>,
    pub argv: Seq<char>,
    pub workingdir: Option<Seq<char>>,
    pub autostart: bool,
    pub env: Option<Seq<(Seq<char>, Seq<char>)>>,
    pub stdout: Option<Seq<char>>,
    pub stderr: Option<Seq<char>>,
    pub exitcodes: Seq<i64>,
    pub startretries: u64,
    pub umask: u16,
    pub autorestart: Autorestart,
    pub starttime: u64,
    pub stopsignal: Signal,
    pub stoptime: u64,
    pub numprocs: usize,
}

impl View for Config {
    type V = ConfigView;

    open spec fn view(&self) -> ConfigView {
        ConfigView {
            name: self.name@,
            argv: self.argv@,
            workingdir: self.workingdir.deep_view(),
            autostart: self.autostart,
            env: self.env.deep_view(),
            stdout: self.stdout.deep_view(),
            stderr: self.stderr.deep_view(),
            exitcodes: self.exitcodes@,
            startretries: self.startretries,
            umask: self.umask,
            autorestart: self.autorestart,
            starttime: self.starttime,
            stopsignal: self.stopsignal,
            stoptime: self.stoptime,
            numprocs: self.numprocs,
        }
    }
}

impl DeepView for Config {
    type V = ConfigView;

    open spec fn deep_view(&self) -> ConfigView {
        self@
    }
}

// What an option holds, and whether its type is the one it must have.
// A missing option reads as `BadValue`.
pub open spec fn text_ok(n: YamlValue) -> bool {
    n is BadValue || n is Str
}

pub open spec fn flag_ok(n: YamlValue) -> bool {
    n is BadValue || n is Bool
}

pub open spec fn number_ok(n: YamlValue) -> bool {
    n is BadValue || n is Int
}

pub open spec fn text_of(n: YamlValue) -> Option<Seq<char>> {
    match n {
        YamlValue::Str(s) => Some(s@),
        _ => None,
    }
}

pub open spec fn number_of(n: YamlValue) -> Option<i64> {
    match n {
        YamlValue::Int(i) => Some(i),
        _ => None,
    }
}

pub open spec fn flag_of(n: YamlValue) -> Option<bool> {
    match n {
        YamlValue::Bool(b) => Some(b),
        _ => None,
    }
}

/// Every name and value of an `env` mapping is text.
pub open spec fn env_all_text(n: YamlValue) -> bool {
    match n {
        YamlValue::Hash(es) => forall|i: int| 0 <= i < es@.len() ==> (#[trigger] es@[i]).0 is Str && es@[i].1 is Str,
        _ => true,
    }
}

/// Every element of an `exitcodes` list is an integer.
pub open spec fn codes_all_int(n: YamlValue) -> bool {
    match n {
        YamlValue::Array(v) => forall|i: int| 0 <= i < v@.len() ==> (#[trigger] v@[i]) is Int,
        _ => true,
    }
}

pub open spec fn text_or_empty(n: YamlValue) -> Seq<char> {
    match n {
        YamlValue::Str(s) => s@,
        _ => Seq::<char>::empty(),
    }
}

pub open spec fn int_or_zero(n: YamlValue) -> i64 {
    match n {
        YamlValue::Int(i) => i,
        _ => 0,
    }
}

/// The first option name, in document order, that is no text or no known option.
pub open spec fn key_error(es: Seq<(YamlValue, YamlValue)>) -> Option<ConfigErrorView>
    decreases es.len(),
{
    if es.len() == 0 {
        None
    } else {
        match es[0].0 {
            YamlValue::Str(k) => if is_valid_field(k@) {
                key_error(es.drop_first())
            } else {
                Some(ConfigErrorView::BadField(k@))
            },
            _ => Some(ConfigErrorView::FieldNameNotText),
        }
    }
}

pub open spec fn autorestart_of(n: Seq<char>) -> Option<Autorestart> {
    if n == "unexpected"@ {
        Some(Autorestart::UNEXPECTED)
    } else if n == "true"@ {
        Some(Autorestart::TRUE)
    } else if n == "false"@ {
        Some(Autorestart::FALSE)
    } else {
        None
    }
}

/// The first wrong option value among the plain options, in the order
/// workingdir, autostart, stdout, stderr, startretries, umask, autorestart,
/// starttime, stoptime, numprocs.
pub open spec fn value_error(c: YamlValue) -> Option<ConfigErrorView> {
    let ar = index_node(c, "autorestart"@);
    let np = index_node(c, "numprocs"@);
    if !text_ok(index_node(c, "workingdir"@)) {
        Some(ConfigErrorView::InvalidType(Field::Workingdir))
    } else if !flag_ok(index_node(c, "autostart"@)) {
        Some(ConfigErrorView::InvalidType(Field::Autostart))
    } else if !text_ok(index_node(c, "stdout"@)) {
        Some(ConfigErrorView::InvalidType(Field::Stdout))
    } else if !text_ok(index_node(c, "stderr"@)) {
        Some(ConfigErrorView::InvalidType(Field::Stderr))
    } else if !number_ok(index_node(c, "startretries"@)) {
        Some(ConfigErrorView::InvalidType(Field::Startretries))
    } else if !number_ok(index_node(c, "umask"@)) {
        Some(ConfigErrorView::InvalidType(Field::Umask))
    } else if !text_ok(ar) {
        Some(ConfigErrorView::InvalidType(Field::Autorestart))
    } else if ar is Str && autorestart_of(text_or_empty(ar)) is None {
        Some(ConfigErrorView::BadAutorestart(text_or_empty(ar)))
    } else if !number_ok(index_node(c, "starttime"@)) {
        Some(ConfigErrorView::InvalidType(Field::Starttime))
    } else if !number_ok(index_node(c, "stoptime"@)) {
        Some(ConfigErrorView::InvalidType(Field::Stoptime))
    } else if !number_ok(np) {
        Some(ConfigErrorView::InvalidType(Field::Numprocs))
    } else if np is Int && int_or_zero(np) <= 0 {
        Some(ConfigErrorView::NumprocsNotPositive(int_or_zero(np)))
    } else {
        None
    }
}

/// Why a program's options cannot be read, the first reason met: `env`,
/// then `exitcodes`, then `stopsignal`, then the option names, then the other
/// options; `None` when they can.
pub open spec fn config_error(c: YamlValue) -> Option<ConfigErrorView> {
    let env = index_node(c, "env"@);
    let ex = index_node(c, "exitcodes"@);
    let sig = index_node(c, "stopsignal"@);
    if !(env is BadValue || env is Hash) {
        Some(ConfigErrorView::InvalidType(Field::Env))
    } else if !env_all_text(env) {
        Some(ConfigErrorView::EnvNotText)
    } else if !codes_all_int(ex) {
        Some(ConfigErrorView::ExitcodeNotInteger)
    } else if !(ex is Array || number_ok(ex)) {
        Some(ConfigErrorView::InvalidType(Field::Exitcodes))
    } else if !text_ok(sig) {
        Some(ConfigErrorView::InvalidType(Field::Stopsignal))
    } else if sig is Str && signal_of(text_or_empty(sig)) is None {
        Some(ConfigErrorView::BadSignal(text_or_empty(sig)))
    } else {
        match c {
            YamlValue::Hash(es) => match key_error(es@) {
                Some(e) => Some(e),
                None => value_error(c),
            },
            _ => Some(ConfigErrorView::NotAMapping),
        }
    }
}

/// The configuration a program's options describe, each missing option taking
/// its default: autostart true, exitcodes 1 and 2, 3 start retries, umask 700,
/// autorestart on unexpected exits, 1 s start time, SIGTERM, 10 s stop time,
/// one process. Integers are converted as `as` converts them.
pub open spec fn config_of(name: Seq<char>, argv: Seq<char>, c: YamlValue) -> ConfigView {
    let env = index_node(c, "env"@);
    let ex = index_node(c, "exitcodes"@);
    let sig = index_node(c, "stopsignal"@);
    ConfigView {
        name: name,
        argv: argv,
        workingdir: text_of(index_node(c, "workingdir"@)),
        autostart: match flag_of(index_node(c, "autostart"@)) {
            Some(b) => b,
            None => true,
        },
        env: match env {
            YamlValue::Hash(es) => Some(
                es@.map_values(|e: (YamlValue, YamlValue)| (text_or_empty(e.0), text_or_empty(e.1))),
            ),
            _ => None,
        },
        stdout: text_of(index_node(c, "stdout"@)),
        stderr: text_of(index_node(c, "stderr"@)),
        exitcodes: match ex {
            YamlValue::Array(v) => v@.map_values(|x: YamlValue| int_or_zero(x)),
            YamlValue::Int(i) => seq![i],
            _ => seq![1i64, 2i64],
        },
        startretries: match number_of(index_node(c, "startretries"@)) {
            Some(i) => i as u64,
            None => 3,
        },
        umask: match number_of(index_node(c, "umask"@)) {
            Some(i) => i as u16,
            None => 700,
        },
        autorestart: match text_of(index_node(c, "autorestart"@)) {
            Some(t) => match autorestart_of(t) {
                Some(a) => a,
                None => Autorestart::UNEXPECTED,
            },
            None => Autorestart::UNEXPECTED,
        },
        starttime: match number_of(index_node(c, "starttime"@)) {
            Some(i) => i as u64,
            None => 1,
        },
        stopsignal: match text_of(sig) {
            Some(t) => match signal_of(t) {
                Some(s) => s,
                None => Signal::SIGTERM,
            },
            None => Signal::SIGTERM,
        },
        stoptime: match number_of(index_node(c, "stoptime"@)) {
            Some(i) => i as u64,
            None => 10,
        },
        numprocs: match number_of(index_node(c, "numprocs"@)) {
            Some(i) => i as usize,
            None => 1,
        },
    }
}


/// The signal a name (without its `SIG` prefix) stands for.
pub fn parse_signal(sig_name: &str) -> (r: Option<Signal>)
    ensures
        r == signal_of(sig_name@),
{
    if same_text(sig_name, "HUP") {
        Some(Signal::SIGHUP)
    } else if same_text(sig_name, "INT") {
        Some(Signal::SIGINT)
    } else if same_text(sig_name, "QUIT") {
        Some(Signal::SIGQUIT)
    } else if same_text(sig_name, "ILL") {
        Some(Signal::SIGILL)
    } else if same_text(sig_name, "TRAP") {
        Some(Signal::SIGTRAP)
    } else if same_text(sig_name, "ABRT") {
        Some(Signal::SIGABRT)
    } else if same_text(sig_name, "BUS") {
        Some(Signal::SIGBUS)
    } else if same_text(sig_name, "FPE") {
        Some(Signal::SIGFPE)
    } else if same_text(sig_name, "KILL") {
        Some(Signal::SIGKILL)
    } else if same_text(sig_name, "USR1") {
        Some(Signal::SIGUSR1)
    } else if same_text(sig_name, "SEGV") {
        Some(Signal::SIGSEGV)
    } else if same_text(sig_name, "USR2") {
        Some(Signal::SIGUSR2)
    } else if same_text(sig_name, "PIPE") {
        Some(Signal::SIGPIPE)
    } else if same_text(sig_name, "ALRM") {
        Some(Signal::SIGALRM)
    } else if same_text(sig_name, "TERM") {
        Some(Signal::SIGTERM)
    } else if same_text(sig_name, "CHLD") {
        Some(Signal::SIGCHLD)
    } else if same_text(sig_name, "CONT") {
        Some(Signal::SIGCONT)
    } else if same_text(sig_name, "STOP") {
        Some(Signal::SIGSTOP)
    } else if same_text(sig_name, "TSTP") {
        Some(Signal::SIGTSTP)
    } else if same_text(sig_name, "TTIN") {
        Some(Signal::SIGTTIN)
    } else if same_text(sig_name, "TTOU") {
        Some(Signal::SIGTTOU)
    } else if same_text(sig_name, "URG") {
        Some(Signal::SIGURG)
    } else if same_text(sig_name, "XCPU") {
        Some(Signal::SIGXCPU)
    } else if same_text(sig_name, "XFSZ") {
        Some(Signal::SIGXFSZ)
    } else if same_text(sig_name, "VTALRM") {
        Some(Signal::SIGVTALRM)
    } else if same_text(sig_name, "PROF") {
        Some(Signal::SIGPROF)
    } else if same_text(sig_name, "WINCH") {
        Some(Signal::SIGWINCH)
    } else if same_text(sig_name, "IO") {
        Some(Signal::SIGIO)
    } else if same_text(sig_name, "SYS") {
        Some(Signal::SIGSYS)
    } else if same_text(sig_name, "EMT") {
        Some(Signal::SIGEMT)
    } else if same_text(sig_name, "INFO") {
        Some(Signal::SIGINFO)
    } else {
        None
    }
}

/// True when `n` names an option.
pub fn valid_field(n: &str) -> (r: bool)
    ensures
        r == is_valid_field(n@),
{
    same_text(n, "cmd") || same_text(n, "workingdir") || same_text(n, "autostart") || same_text(n, "env") || same_text(n, "stdout") || same_text(n, "stderr") || same_text(n, "exitcodes") || same_text(n, "startretries") || same_text(n, "umask") || same_text(n, "autorestart") || same_text(n, "starttime") || same_text(n, "stopsignal") || same_text(n, "stoptime") || same_text(n, "numprocs")
}

pub(crate) fn text_field(c: &YamlValue, key: &str) -> (r: Option<String>)
    ensures
        r.deep_view() == text_of(index_node(*c, key@)),
{
    match index(c, key) {
        Some(YamlValue::Str(s)) => Some(s.clone()),
        _ => None,
    }
}

pub(crate) fn number_field(c: &YamlValue, key: &str) -> (r: Option<i64>)
    ensures
        r == number_of(index_node(*c, key@)),
{
    match index(c, key) {
        Some(YamlValue::Int(i)) => Some(*i),
        _ => None,
    }
}

pub(crate) fn flag_field(c: &YamlValue, key: &str) -> (r: Option<bool>)
    ensures
        r == flag_of(index_node(*c, key@)),
{
    match index(c, key) {
        Some(YamlValue::Bool(b)) => Some(*b),
        _ => None,
    }
}

/// The node stored under `key`, `BadValue` included.
fn node_kind_ok(c: &YamlValue, key: &str, text: bool, flag: bool, number: bool) -> (r: bool)
    ensures
        r == ((text && text_ok(index_node(*c, key@))) || (flag && flag_ok(index_node(*c, key@))) || (number && number_ok(index_node(*c, key@)))),
{
    match index(c, key) {
        None => text || flag || number,
        Some(YamlValue::BadValue) => text || flag || number,
        Some(YamlValue::Str(_)) => text,
        Some(YamlValue::Bool(_)) => flag,
        Some(YamlValue::Int(_)) => number,
        Some(_) => false,
    }
}


pub open spec fn error_view(r: Option<ConfigError>) -> Option<ConfigErrorView> {
    match r {
        Some(e) => Some(e@),
        None => None,
    }
}

pub(crate) fn env_pairs(es: &Vec<(YamlValue, YamlValue)>) -> (r: Vec<(String, String)>)
    requires
        forall|i: int| 0 <= i < es@.len() ==> (#[trigger] es@[i]).0 is Str && es@[i].1 is Str,
    ensures
        r.deep_view() == es@.map_values(|e: (YamlValue, YamlValue)| (text_or_empty(e.0), text_or_empty(e.1))),
{
    let ghost target = es@.map_values(|e: (YamlValue, YamlValue)| (text_or_empty(e.0), text_or_empty(e.1)));
    let mut r: Vec<(String, String)> = Vec::new();
    let n = es.len();
    let mut i: usize = 0;
    while i < n
        invariant
            n == es.len(),
            i <= n,
            target == es@.map_values(|e: (YamlValue, YamlValue)| (text_or_empty(e.0), text_or_empty(e.1))),
            forall|j: int| 0 <= j < es@.len() ==> (#[trigger] es@[j]).0 is Str && es@[j].1 is Str,
            r.deep_view() == target.take(i as int),
        decreases n - i,
    {
        let k = match &es[i].0 {
            YamlValue::Str(s) => s.clone(),
            _ => String::new(),
        };
        let v = match &es[i].1 {
            YamlValue::Str(s) => s.clone(),
            _ => String::new(),
        };
        let ghost before = r.deep_view();
        r.push((k, v));
        proof {
            assert(r.deep_view() =~= before.push((k@, v@)));
            assert(target.take(i + 1) =~= target.take(i as int).push(target[i as int]));
        }
        i = i + 1;
    }
    proof {
        assert(target.take(n as int) =~= target);
    }
    r
}

pub(crate) fn codes_of(v: &Vec<YamlValue>) -> (r: Vec<i64>)
    ensures
        r@ == v@.map_values(|x: YamlValue| int_or_zero(x)),
{
    let ghost target = v@.map_values(|x: YamlValue| int_or_zero(x));
    let mut r: Vec<i64> = Vec::new();
    let n = v.len();
    let mut i: usize = 0;
    while i < n
        invariant
            n == v.len(),
            i <= n,
            target == v@.map_values(|x: YamlValue| int_or_zero(x)),
            r@ == target.take(i as int),
        decreases n - i,
    {
        let c = match &v[i] {
            YamlValue::Int(x) => *x,
            _ => 0,
        };
        r.push(c);
        proof {
            assert(target.take(i + 1) =~= target.take(i as int).push(target[i as int]));
        }
        i = i + 1;
    }
    proof {
        assert(target.take(n as int) =~= target);
    }
    r
}

impl Config {
    /// Creates a Config instance from the process name, its command and the
    /// YAML mapping of its options.
    pub fn new(name: &str, argv: &str, config: &YamlValue) -> (c: Config)
        requires
            config_error(*config) is None,
        ensures
            c@ == config_of(name@, argv@, *config),
    {
        // env is represented by a nested YAML into the current
        // config. Parsing it as a tuple of key, value.
        let env = match index(config, "env") {
            Some(YamlValue::Hash(es)) => Some(env_pairs(es)),
            _ => None,
        };
        // Exitcodes can be either one field, or many.
        let exitcodes = match index(config, "exitcodes") {
            Some(YamlValue::Array(v)) => codes_of(v),
            Some(YamlValue::Int(i)) => {
                let mut one: Vec<i64> = Vec::new();
                one.push(*i);
                one
            },
            _ => {
                let mut dflt: Vec<i64> = Vec::new();
                dflt.push(1);
                dflt.push(2);
                dflt
            },
        };
        let stopsignal = match text_field(config, "stopsignal") {
            Some(t) => match parse_signal(t.as_str()) {
                Some(s) => s,
                None => Signal::SIGTERM,
            },
            None => Signal::SIGTERM,
        };
        let autorestart = match text_field(config, "autorestart") {
            Some(t) => if same_text(t.as_str(), "unexpected") {
                Autorestart::UNEXPECTED
            } else if same_text(t.as_str(), "true") {
                Autorestart::TRUE
            } else if same_text(t.as_str(), "false") {
                Autorestart::FALSE
            } else {
                Autorestart::UNEXPECTED
            },
            None => Autorestart::UNEXPECTED,
        };
        let c = Config {
            name: name.to_owned(),
            argv: argv.to_owned(),
            workingdir: text_field(config, "workingdir"),
            autostart: match flag_field(config, "autostart") {
                Some(value) => value,
                None => true,
            },
            env,
            stdout: text_field(config, "stdout"),
            stderr: text_field(config, "stderr"),
            exitcodes,
            startretries: match number_field(config, "startretries") {
                Some(i) => i as u64,
                None => 3,
            },
            umask: match number_field(config, "umask") {
                Some(i) => i as u16,
                None => 700,
            },
            autorestart,
            starttime: match number_field(config, "starttime") {
                Some(i) => i as u64,
                None => 1,
            },
            stopsignal,
            stoptime: match number_field(config, "stoptime") {
                Some(i) => i as u64,
                None => 10,
            },
            numprocs: match number_field(config, "numprocs") {
                Some(i) => i as usize,
                None => 1,
            },
        };
        proof {
            assert(c.exitcodes@ =~= config_of(name@, argv@, *config).exitcodes);
        }
        c
    }
}

fn key_check(es: &Vec<(YamlValue, YamlValue)>) -> (r: Option<ConfigError>)
    ensures
        error_view(r) == key_error(es@),
{
    let n = es.len();
    let mut i: usize = 0;
    proof {
        assert(es@.skip(0) =~= es@);
    }
    while i < n
        invariant
            n == es.len(),
            i <= n,
            key_error(es@) == key_error(es@.skip(i as int)),
        decreases n - i,
    {
        proof {
            assert(es@.skip(i as int).drop_first() =~= es@.skip(i + 1));
            assert(es@.skip(i as int)[0] == es@[i as int]);
        }
        match &es[i].0 {
            YamlValue::Str(k) => {
                if !valid_field(k.as_str()) {
                    return Some(ConfigError::BadField(k.clone()));
                }
            },
            _ => {
                return Some(ConfigError::FieldNameNotText);
            },
        }
        i = i + 1;
    }
    None
}

fn values_check(c: &YamlValue) -> (r: Option<ConfigError>)
    ensures
        error_view(r) == value_error(*c),
{
    if !node_kind_ok(c, "workingdir", true, false, false) {
        return Some(ConfigError::InvalidType(Field::Workingdir));
    }
    if !node_kind_ok(c, "autostart", false, true, false) {
        return Some(ConfigError::InvalidType(Field::Autostart));
    }
    if !node_kind_ok(c, "stdout", true, false, false) {
        return Some(ConfigError::InvalidType(Field::Stdout));
    }
    if !node_kind_ok(c, "stderr", true, false, false) {
        return Some(ConfigError::InvalidType(Field::Stderr));
    }
    if !node_kind_ok(c, "startretries", false, false, true) {
        return Some(ConfigError::InvalidType(Field::Startretries));
    }
    if !node_kind_ok(c, "umask", false, false, true) {
        return Some(ConfigError::InvalidType(Field::Umask));
    }
    if !node_kind_ok(c, "autorestart", true, false, false) {
        return Some(ConfigError::InvalidType(Field::Autorestart));
    }
    match text_field(c, "autorestart") {
        Some(t) => {
            if !(same_text(t.as_str(), "unexpected") || same_text(t.as_str(), "true") || same_text(t.as_str(), "false")) {
                return Some(ConfigError::BadAutorestart(t));
            }
        },
        None => {},
    }
    if !node_kind_ok(c, "starttime", false, false, true) {
        return Some(ConfigError::InvalidType(Field::Starttime));
    }
    if !node_kind_ok(c, "stoptime", false, false, true) {
        return Some(ConfigError::InvalidType(Field::Stoptime));
    }
    if !node_kind_ok(c, "numprocs", false, false, true) {
        return Some(ConfigError::InvalidType(Field::Numprocs));
    }
    match number_field(c, "numprocs") {
        Some(i) => {
            if i <= 0 {
                return Some(ConfigError::NumprocsNotPositive(i));
            }
        },
        None => {},
    }
    None
}

/// Why a program's options cannot be read, if they cannot.
pub fn config_check(c: &YamlValue) -> (r: Option<ConfigError>)
    ensures
        error_view(r) == config_error(*c),
{
    match index(c, "env") {
        Some(YamlValue::Hash(es)) => {
            let n = es.len();
            let mut i: usize = 0;
            while i < n
                invariant
                    n == es.len(),
                    i <= n,
                    forall|j: int| 0 <= j < i ==> (#[trigger] es@[j]).0 is Str && es@[j].1 is Str,
                    index_node(*c, "env"@) == YamlValue::Hash(*es),
                decreases n - i,
            {
                let ok = match (&es[i].0, &es[i].1) {
                    (YamlValue::Str(_), YamlValue::Str(_)) => true,
                    _ => false,
                };
                if !ok {
                    assert(!(es@[i as int].0 is Str && es@[i as int].1 is Str));
                    return Some(ConfigError::EnvNotText);
                }
                i = i + 1;
            }
        },
        None => {},
        Some(YamlValue::BadValue) => {},
        Some(_) => {
            return Some(ConfigError::InvalidType(Field::Env));
        },
    }
    match index(c, "exitcodes") {
        Some(YamlValue::Array(v)) => {
            let n = v.len();
            let mut i: usize = 0;
            while i < n
                invariant
                    n == v.len(),
                    i <= n,
                    forall|j: int| 0 <= j < i ==> (#[trigger] v@[j]) is Int,
                    index_node(*c, "exitcodes"@) == YamlValue::Array(*v),
                    index_node(*c, "env"@) is BadValue || index_node(*c, "env"@) is Hash,
                    env_all_text(index_node(*c, "env"@)),
                decreases n - i,
            {
                let ok = match &v[i] {
                    YamlValue::Int(_) => true,
                    _ => false,
                };
                if !ok {
                    assert(!(v@[i as int] is Int));
                    return Some(ConfigError::ExitcodeNotInteger);
                }
                i = i + 1;
            }
        },
        None => {},
        Some(YamlValue::BadValue) => {},
        Some(YamlValue::Int(_)) => {},
        Some(_) => {
            return Some(ConfigError::InvalidType(Field::Exitcodes));
        },
    }
    if !node_kind_ok(c, "stopsignal", true, false, false) {
        return Some(ConfigError::InvalidType(Field::Stopsignal));
    }
    match text_field(c, "stopsignal") {
        Some(t) => {
            if parse_signal(t.as_str()).is_none() {
                return Some(ConfigError::BadSignal(t));
            }
        },
        None => {},
    }
    match c {
        YamlValue::Hash(es) => {
            let k = key_check(es);
            if k.is_some() {
                return k;
            }
            values_check(c)
        },
        _ => Some(ConfigError::NotAMapping),
    }
}


pub(crate) fn clone_text(t: &Option<String>) -> (r: Option<String>)
    ensures
        r.deep_view() == t.deep_view(),
{
    match t {
        Some(s) => Some(s.clone()),
        None => None,
    }
}

fn clone_pairs(v: &Vec<(String, String)>) -> (r: Vec<(String, String)>)
    ensures
        r.deep_view() == v.deep_view(),
{
    let mut r: Vec<(String, String)> = Vec::new();
    let n = v.len();
    let mut i: usize = 0;
    while i < n
        invariant
            n == v.len(),
            i <= n,
            r.deep_view() == v.deep_view().take(i as int),
        decreases n - i,
    {
        let ghost before = r.deep_view();
        let k = v[i].0.clone();
        let x = v[i].1.clone();
        r.push((k, x));
        proof {
            assert(r.deep_view() =~= before.push((k@, x@)));
            assert(v.deep_view().take(i + 1) =~= v.deep_view().take(i as int).push(v.deep_view()[i as int]));
        }
        i = i + 1;
    }
    proof {
        assert(v.deep_view().take(n as int) =~= v.deep_view());
    }
    r
}

fn clone_codes(v: &Vec<i64>) -> (r: Vec<i64>)
    ensures
        r@ == v@,
{
    let mut r: Vec<i64> = Vec::new();
    let n = v.len();
    let mut i: usize = 0;
    while i < n
        invariant
            n == v.len(),
            i <= n,
            r@ == v@.take(i as int),
        decreases n - i,
    {
        r.push(v[i]);
        proof {
            assert(v@.take(i + 1) =~= v@.take(i as int).push(v@[i as int]));
        }
        i = i + 1;
    }
    proof {
        assert(v@.take(n as int) =~= v@);
    }
    r
}

fn same_opt_text(a: &Option<String>, b: &Option<String>) -> (r: bool)
    ensures
        r == (a.deep_view() == b.deep_view()),
{
    match (a, b) {
        (Some(x), Some(y)) => *x == *y,
        (None, None) => true,
        _ => false,
    }
}

fn same_pairs(a: &Vec<(String, String)>, b: &Vec<(String, String)>) -> (r: bool)
    ensures
        r == (a.deep_view() == b.deep_view()),
{
    if a.len() != b.len() {
        proof {
            assert(a.deep_view().len() != b.deep_view().len());
        }
        return false;
    }
    let n = a.len();
    let mut i: usize = 0;
    while i < n
        invariant
            n == a.len(),
            n == b.len(),
            i <= n,
            forall|j: int| 0 <= j < i ==> a.deep_view()[j] == b.deep_view()[j],
        decreases n - i,
    {
        if !(a[i].0 == b[i].0 && a[i].1 == b[i].1) {
            proof {
                assert(a.deep_view()[i as int] != b.deep_view()[i as int]);
            }
            return false;
        }
        i = i + 1;
    }
    proof {
        assert(a.deep_view() =~= b.deep_view());
    }
    true
}

fn same_env(a: &Option<Vec<(String, String)>>, b: &Option<Vec<(String, String)>>) -> (r: bool)
    ensures
        r == (a.deep_view() == b.deep_view()),
{
    match (a, b) {
        (Some(x), Some(y)) => same_pairs(x, y),
        (None, None) => true,
        _ => false,
    }
}

impl Clone for Config {
    fn clone(&self) -> (r: Self)
        ensures
            r@ == self@,
    {
        Config {
            name: self.name.clone(),
            argv: self.argv.clone(),
            workingdir: clone_text(&self.workingdir),
            autostart: self.autostart,
            env: match &self.env {
                Some(v) => Some(clone_pairs(v)),
                None => None,
            },
            stdout: clone_text(&self.stdout),
            stderr: clone_text(&self.stderr),
            exitcodes: clone_codes(&self.exitcodes),
            startretries: self.startretries,
            umask: self.umask,
            autorestart: self.autorestart,
            starttime: self.starttime,
            stopsignal: self.stopsignal,
            stoptime: self.stoptime,
            numprocs: self.numprocs,
        }
    }
}

/// Two configurations differ fatally when they differ in what the program is
/// started with: name, command, working directory, environment, output files
/// or umask. Such a difference needs the program restarted.
pub open spec fn fatal_diff(a: ConfigView, b: ConfigView) -> bool {
    ||| a.name != b.name
    ||| a.argv != b.argv
    ||| a.workingdir != b.workingdir
    ||| a.env != b.env
    ||| a.stdout != b.stdout
    ||| a.stderr != b.stderr
    ||| a.umask != b.umask
}

impl Config {
    /// Returns true if the 2 config have fatal differences (one that necessites
    /// restarting to apply)
    pub fn fatal_cmp(&self, other: &Config) -> (r: bool)
        ensures
            r == fatal_diff(self@, other@),
    {
        if !(self.name == other.name) || !(self.argv == other.argv) || !same_opt_text(&self.workingdir, &other.workingdir)
            || !same_env(&self.env, &other.env) || !same_opt_text(&self.stdout, &other.stdout)
            || !same_opt_text(&self.stderr, &other.stderr) || self.umask != other.umask {
            return true;
        }
        false
    }
}

/// No configuration differs fatally from itself, and a fatal difference goes
/// both ways.
pub proof fn lemma_fatal_diff_is_inequality(a: ConfigView, b: ConfigView)
    ensures
        !fatal_diff(a, a),
        fatal_diff(a, b) == fatal_diff(b, a),
{
}

/// The `autorestart` option reads each accepted name as the policy of that
/// name: `true` restarts after every exit, `false` never, and `unexpected`
/// reads exactly as leaving the option out; the three give three different
/// policies. Nothing else of the program's options changes this.
pub proof fn lemma_autorestart_names(
    name: Seq<char>,
    argv: Seq<char>,
    c: YamlValue,
    other: YamlValue,
    t: String,
)
    requires
        index_node(c, "autorestart"@) == YamlValue::Str(t),
        index_node(other, "autorestart"@) is BadValue,
    ensures
        t@ == "true"@ ==> config_of(name, argv, c).autorestart == Autorestart::TRUE,
        t@ == "false"@ ==> config_of(name, argv, c).autorestart == Autorestart::FALSE,
        t@ == "unexpected"@ ==> config_of(name, argv, c).autorestart == config_of(name, argv, other).autorestart,
        config_of(name, argv, other).autorestart != Autorestart::TRUE,
        config_of(name, argv, other).autorestart != Autorestart::FALSE,
{
    reveal_strlit("true");
    reveal_strlit("false");
    reveal_strlit("unexpected");
    assert("true"@.len() == 4 && "false"@.len() == 5 && "unexpected"@.len() == 10);
    assert("true"@ != "unexpected"@);
    assert("false"@ != "unexpected"@);
    assert("false"@ != "true"@);
}

} // verus!
