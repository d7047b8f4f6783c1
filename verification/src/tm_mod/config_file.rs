//! The whole configuration file: services, each a mapping of programs.
//! Multiple services cannot have the same name, multiple programs cannot have
//! the same name even across services, and a program cannot have the name of
//! a service.
use vstd::prelude::*;
use crate::text::same_text;
use crate::yaml::{YamlValue, index, index_node, yaml_documents, load_yaml, nesting_bound, nesting_within_limit, NESTING_LIMIT};
use crate::tm_mod::config::{Config, ConfigView, ConfigError, ConfigErrorView, config_error, config_of, config_check};

verus! {

/// The programs of one service, each under its own name.
#[derive(Debug)]
pub struct ServiceConfig {
    pub name: String,
    pub processes: Vec<Config>,
}

pub struct ServiceConfigView {
    pub name: Seq<char>,
    pub processes: Seq<ConfigView>,
}

impl View for ServiceConfig {
    type V = ServiceConfigView;

    open spec fn view(&self) -> ServiceConfigView {
        ServiceConfigView { name: self.name@, processes: self.processes.deep_view() }
    }
}

impl DeepView for ServiceConfig {
    type V = ServiceConfigView;

    open spec fn deep_view(&self) -> ServiceConfigView {
        self@
    }
}

pub open spec fn config_names(cs: Seq<ConfigView>) -> Seq<Seq<char>> {
    cs.map_values(|c: ConfigView| c.name)
}

pub open spec fn service_names(ss: Seq<ServiceConfigView>) -> Seq<Seq<char>> {
    ss.map_values(|s: ServiceConfigView| s.name)
}

/// The names of all programs of all services, service after service.
pub open spec fn process_names(ss: Seq<ServiceConfigView>) -> Seq<Seq<char>>
    decreases ss.len(),
{
    if ss.len() == 0 {
        Seq::<Seq<char>>::empty()
    } else {
        process_names(ss.drop_last()) + config_names(ss.last().processes)
    }
}

/// Reads one program entry of service `sname`, after the services `ss` and the
/// programs `done` of this service were read.
pub open spec fn add_process(
    ss: Seq<ServiceConfigView>,
    sname: Seq<char>,
    done: Seq<ConfigView>,
    entry: (YamlValue, YamlValue),
) -> Result<Seq<ConfigView>, ConfigErrorView> {
    match entry.0 {
        YamlValue::Str(p) => match index_node(entry.1, "cmd"@) {
            YamlValue::Str(cmd) => if process_names(ss).contains(p@) || config_names(done).contains(p@)
                || service_names(ss).contains(p@) || p@ == sname {
                Err(ConfigErrorView::DuplicateProcess(p@))
            } else {
                match config_error(entry.1) {
                    Some(e) => Err(e),
                    None => Ok(done.push(config_of(p@, cmd@, entry.1))),
                }
            },
            _ => Err(ConfigErrorView::MissingCommand(p@)),
        },
        _ => Err(ConfigErrorView::ProcessNameNotText),
    }
}

/// Reads the program entries of service `sname` in order.
pub open spec fn build_processes(
    ss: Seq<ServiceConfigView>,
    sname: Seq<char>,
    es: Seq<(YamlValue, YamlValue)>,
) -> Result<Seq<ConfigView>, ConfigErrorView>
    decreases es.len(),
{
    if es.len() == 0 {
        Ok(Seq::<ConfigView>::empty())
    } else {
        match build_processes(ss, sname, es.drop_last()) {
            Err(e) => Err(e),
            Ok(done) => add_process(ss, sname, done, es.last()),
        }
    }
}

/// Reads one service entry after the services `ss`.
pub open spec fn add_service(ss: Seq<ServiceConfigView>, entry: (YamlValue, YamlValue)) -> Result<
    Seq<ServiceConfigView>,
    ConfigErrorView,
> {
    match entry.0 {
        YamlValue::Str(s) => match entry.1 {
            YamlValue::Hash(pes) => match build_processes(ss, s@, pes@) {
                Err(e) => Err(e),
                Ok(cs) => if service_names(ss).contains(s@) || process_names(ss).contains(s@)
                    || config_names(cs).contains(s@) {
                    Err(ConfigErrorView::DuplicateService(s@))
                } else {
                    Ok(ss.push(ServiceConfigView { name: s@, processes: cs }))
                },
            },
            _ => Err(ConfigErrorView::ServiceNotAMapping(s@)),
        },
        _ => Err(ConfigErrorView::ServiceNameNotText),
    }
}

/// Reads the service entries in order.
pub open spec fn build_services(es: Seq<(YamlValue, YamlValue)>) -> Result<
    Seq<ServiceConfigView>,
    ConfigErrorView,
>
    decreases es.len(),
{
    if es.len() == 0 {
        Ok(Seq::<ServiceConfigView>::empty())
    } else {
        match build_services(es.drop_last()) {
            Err(e) => Err(e),
            Ok(ss) => add_service(ss, es.last()),
        }
    }
}

/// The services that the first document describes, or the first reason it
/// describes none.
pub open spec fn config_map_of(docs: Seq<YamlValue>) -> Result<Seq<ServiceConfigView>, ConfigErrorView> {
    if docs.len() == 0 {
        Err(ConfigErrorView::NoDocument)
    } else {
        match docs[0] {
            YamlValue::Hash(es) => build_services(es@),
            _ => Err(ConfigErrorView::DocumentNotAMapping),
        }
    }
}

/// The services that a configuration text describes, or why it describes none.
/// A text that may nest deeper than the limit is refused before it is parsed.
pub open spec fn config_text_of(text: Seq<char>) -> Result<Seq<ServiceConfigView>, ConfigErrorView> {
    if nesting_bound(text) > NESTING_LIMIT {
        Err(ConfigErrorView::TooDeeplyNested)
    } else {
        match yaml_documents(text) {
            None => Err(ConfigErrorView::Unreadable),
            Some(docs) => config_map_of(docs),
        }
    }
}

pub open spec fn map_result_view(r: Result<Vec<ServiceConfig>, ConfigError>) -> Result<
    Seq<ServiceConfigView>,
    ConfigErrorView,
> {
    match r {
        Ok(v) => Ok(v.deep_view()),
        Err(e) => Err(e@),
    }
}


fn has_text(v: &Vec<String>, s: &str) -> (r: bool)
    ensures
        r == v.deep_view().contains(s@),
{
    let n = v.len();
    let mut i: usize = 0;
    while i < n
        invariant
            n == v.len(),
            i <= n,
            forall|j: int| 0 <= j < i ==> v.deep_view()[j] != s@,
        decreases n - i,
    {
        if same_text(v[i].as_str(), s) {
            proof {
                assert(v.deep_view()[i as int] == s@);
            }
            return true;
        }
        i = i + 1;
    }
    false
}

fn has_config(cs: &Vec<Config>, s: &str) -> (r: bool)
    ensures
        r == config_names(cs.deep_view()).contains(s@),
{
    let n = cs.len();
    let mut i: usize = 0;
    while i < n
        invariant
            n == cs.len(),
            i <= n,
            forall|j: int| 0 <= j < i ==> config_names(cs.deep_view())[j] != s@,
        decreases n - i,
    {
        if same_text(cs[i].name.as_str(), s) {
            proof {
                assert(config_names(cs.deep_view())[i as int] == s@);
            }
            return true;
        }
        i = i + 1;
    }
    false
}

fn has_service(ss: &Vec<ServiceConfig>, s: &str) -> (r: bool)
    ensures
        r == service_names(ss.deep_view()).contains(s@),
{
    let n = ss.len();
    let mut i: usize = 0;
    while i < n
        invariant
            n == ss.len(),
            i <= n,
            forall|j: int| 0 <= j < i ==> service_names(ss.deep_view())[j] != s@,
        decreases n - i,
    {
        if same_text(ss[i].name.as_str(), s) {
            proof {
                assert(service_names(ss.deep_view())[i as int] == s@);
            }
            return true;
        }
        i = i + 1;
    }
    false
}

proof fn lemma_processes_err_extends(
    ss: Seq<ServiceConfigView>,
    sname: Seq<char>,
    es: Seq<(YamlValue, YamlValue)>,
    k: nat,
)
    requires
        k <= es.len(),
        build_processes(ss, sname, es.take(k as int)) is Err,
    ensures
        build_processes(ss, sname, es) == build_processes(ss, sname, es.take(k as int)),
    decreases es.len() - k,
{
    if k < es.len() {
        assert(es.take((k + 1) as int).drop_last() =~= es.take(k as int));
        lemma_processes_err_extends(ss, sname, es, k + 1);
    } else {
        assert(es.take(k as int) =~= es);
    }
}

proof fn lemma_services_err_extends(es: Seq<(YamlValue, YamlValue)>, k: nat)
    requires
        k <= es.len(),
        build_services(es.take(k as int)) is Err,
    ensures
        build_services(es) == build_services(es.take(k as int)),
    decreases es.len() - k,
{
    if k < es.len() {
        assert(es.take((k + 1) as int).drop_last() =~= es.take(k as int));
        lemma_services_err_extends(es, k + 1);
    } else {
        assert(es.take(k as int) =~= es);
    }
}

pub open spec fn configs_result_view(r: Result<Vec<Config>, ConfigError>) -> Result<Seq<ConfigView>, ConfigErrorView> {
    match r {
        Ok(v) => Ok(v.deep_view()),
        Err(e) => Err(e@),
    }
}

/// Reads the programs of service `sname`.
fn processes_of(
    ss: &Vec<ServiceConfig>,
    taken: &Vec<String>,
    sname: &String,
    pes: &Vec<(YamlValue, YamlValue)>,
) -> (r: Result<Vec<Config>, ConfigError>)
    requires
        taken.deep_view() == process_names(ss.deep_view()),
    ensures
        configs_result_view(r) == build_processes(ss.deep_view(), sname@, pes@),
{
    let ghost sv = ss.deep_view();
    let mut done: Vec<Config> = Vec::new();
    let n = pes.len();
    let mut i: usize = 0;
    proof {
        assert(pes@.take(0) =~= Seq::<(YamlValue, YamlValue)>::empty());
        assert(done.deep_view() =~= Seq::<ConfigView>::empty());
    }
    while i < n
        invariant
            n == pes.len(),
            i <= n,
            sv == ss.deep_view(),
            taken.deep_view() == process_names(sv),
            build_processes(sv, sname@, pes@.take(i as int)) == Ok::<Seq<ConfigView>, ConfigErrorView>(done.deep_view()),
        decreases n - i,
    {
        let ghost pre = pes@.take(i as int);
        let ghost next = pes@.take(i + 1);
        proof {
            assert(next.drop_last() =~= pre);
            assert(next.last() == pes@[i as int]);
        }
        let entry = &pes[i];
        let step: Result<Config, ConfigError> = match &entry.0 {
            YamlValue::Str(p) => match index(&entry.1, "cmd") {
                Some(YamlValue::Str(cmd)) => {
                    if has_text(taken, p.as_str()) || has_config(&done, p.as_str()) || has_service(ss, p.as_str())
                        || same_text(p.as_str(), sname.as_str()) {
                        Err(ConfigError::DuplicateProcess(p.clone()))
                    } else {
                        match config_check(&entry.1) {
                            Some(e) => Err(e),
                            None => Ok(Config::new(p.as_str(), cmd.as_str(), &entry.1)),
                        }
                    }
                },
                _ => Err(ConfigError::MissingCommand(p.clone())),
            },
            _ => Err(ConfigError::ProcessNameNotText),
        };
        match step {
            Err(e) => {
                proof {
                    lemma_processes_err_extends(sv, sname@, pes@, (i + 1) as nat);
                }
                return Err(e);
            },
            Ok(c) => {
                let ghost before = done.deep_view();
                done.push(c);
                proof {
                    assert(done.deep_view() =~= before.push(c@));
                }
            },
        }
        i = i + 1;
    }
    proof {
        assert(pes@.take(n as int) =~= pes@);
    }
    Ok(done)
}

/// Reads the service entries of the document.
fn services_of(es: &Vec<(YamlValue, YamlValue)>) -> (r: Result<Vec<ServiceConfig>, ConfigError>)
    ensures
        map_result_view(r) == build_services(es@),
{
    let mut ss: Vec<ServiceConfig> = Vec::new();
    let mut taken: Vec<String> = Vec::new();
    let n = es.len();
    let mut i: usize = 0;
    proof {
        assert(es@.take(0) =~= Seq::<(YamlValue, YamlValue)>::empty());
        assert(ss.deep_view() =~= Seq::<ServiceConfigView>::empty());
        assert(taken.deep_view() =~= Seq::<Seq<char>>::empty());
    }
    while i < n
        invariant
            n == es.len(),
            i <= n,
            taken.deep_view() == process_names(ss.deep_view()),
            build_services(es@.take(i as int)) == Ok::<Seq<ServiceConfigView>, ConfigErrorView>(ss.deep_view()),
        decreases n - i,
    {
        let ghost pre = es@.take(i as int);
        let ghost next = es@.take(i + 1);
        proof {
            assert(next.drop_last() =~= pre);
            assert(next.last() == es@[i as int]);
        }
        let entry = &es[i];
        let sname = match &entry.0 {
            YamlValue::Str(s) => s,
            _ => {
                proof {
                    lemma_services_err_extends(es@, (i + 1) as nat);
                }
                return Err(ConfigError::ServiceNameNotText);
            },
        };
        let pes = match &entry.1 {
            YamlValue::Hash(p) => p,
            _ => {
                proof {
                    lemma_services_err_extends(es@, (i + 1) as nat);
                }
                return Err(ConfigError::ServiceNotAMapping(sname.clone()));
            },
        };
        let cs = match processes_of(&ss, &taken, sname, pes) {
            Ok(cs) => cs,
            Err(e) => {
                proof {
                    lemma_services_err_extends(es@, (i + 1) as nat);
                }
                return Err(e);
            },
        };
        if has_service(&ss, sname.as_str()) || has_text(&taken, sname.as_str()) || has_config(&cs, sname.as_str()) {
            proof {
                lemma_services_err_extends(es@, (i + 1) as nat);
            }
            return Err(ConfigError::DuplicateService(sname.clone()));
        }
        let ghost taken_before = taken.deep_view();
        let ghost ss_before = ss.deep_view();
        let m = cs.len();
        let mut j: usize = 0;
        while j < m
            invariant
                m == cs.len(),
                j <= m,
                taken.deep_view() == taken_before + config_names(cs.deep_view()).take(j as int),
            decreases m - j,
        {
            let ghost b = taken.deep_view();
            taken.push(cs[j].name.clone());
            proof {
                assert(config_names(cs.deep_view()).take(j + 1) =~= config_names(cs.deep_view()).take(j as int).push(cs[j as int].name@));
                assert(taken.deep_view() =~= b.push(cs[j as int].name@));
            }
            j = j + 1;
        }
        let ghost csv = cs.deep_view();
        ss.push(ServiceConfig { name: sname.clone(), processes: cs });
        proof {
            assert(ss.deep_view() =~= ss_before.push(ServiceConfigView { name: sname@, processes: csv }));
            assert(ss.deep_view().drop_last() =~= ss_before);
            assert(config_names(csv).take(m as int) =~= config_names(csv));
        }
        i = i + 1;
    }
    proof {
        assert(es@.take(n as int) =~= es@);
    }
    Ok(ss)
}

/// The services that the first of the documents describes, or the first
/// reason why it describes none.
pub fn config_from_docs(docs: &Vec<YamlValue>) -> (r: Result<Vec<ServiceConfig>, ConfigError>)
    ensures
        map_result_view(r) == config_map_of(docs@),
{
    if docs.len() == 0 {
        return Err(ConfigError::NoDocument);
    }
    match &docs[0] {
        YamlValue::Hash(es) => services_of(es),
        _ => Err(ConfigError::DocumentNotAMapping),
    }
}

/// Reads a configuration text: the YAML documents it holds, then the services
/// that the first one describes. A text that may nest too deeply to be parsed
/// is refused first.
pub fn read_config(text: &str) -> (r: Result<Vec<ServiceConfig>, ConfigError>)
    ensures
        map_result_view(r) == config_text_of(text@),
{
    if !nesting_within_limit(text) {
        return Err(ConfigError::TooDeeplyNested);
    }
    match load_yaml(text) {
        None => Err(ConfigError::Unreadable),
        Some(docs) => config_from_docs(&docs),
    }
}


/// No name occurs twice.
pub open spec fn no_dups(s: Seq<Seq<char>>) -> bool {
    forall|i: int, j: int| 0 <= i < s.len() && 0 <= j < s.len() && i != j ==> s[i] != s[j]
}

proof fn lemma_no_dups_push(s: Seq<Seq<char>>, x: Seq<char>)
    requires
        no_dups(s),
        !s.contains(x),
    ensures
        no_dups(s.push(x)),
{
    assert forall|i: int, j: int| 0 <= i < s.push(x).len() && 0 <= j < s.push(x).len() && i != j implies s.push(x)[i] != s.push(x)[j] by {
        if i == s.len() {
            assert(s[j] == s.push(x)[j]);
        } else if j == s.len() {
            assert(s[i] == s.push(x)[i]);
        }
    }
}

proof fn lemma_no_dups_concat(a: Seq<Seq<char>>, b: Seq<Seq<char>>)
    requires
        no_dups(a),
        no_dups(b),
        forall|k: Seq<char>| a.contains(k) ==> !b.contains(k),
    ensures
        no_dups(a + b),
{
    let c = a + b;
    assert forall|i: int, j: int| 0 <= i < c.len() && 0 <= j < c.len() && i != j implies c[i] != c[j] by {
        if i < a.len() && j >= a.len() {
            assert(a.contains(c[i]));
            assert(b[j - a.len()] == c[j]);
            assert(b.contains(c[j]));
        } else if j < a.len() && i >= a.len() {
            assert(a.contains(c[j]));
            assert(b[i - a.len()] == c[i]);
            assert(b.contains(c[i]));
        } else if i >= a.len() && j >= a.len() {
            assert(b[i - a.len()] == c[i]);
            assert(b[j - a.len()] == c[j]);
        }
    }
}

proof fn lemma_build_processes_fresh(ss: Seq<ServiceConfigView>, sname: Seq<char>, es: Seq<(YamlValue, YamlValue)>)
    requires
        build_processes(ss, sname, es) is Ok,
    ensures
        ({
            let cs = build_processes(ss, sname, es)->Ok_0;
            &&& no_dups(config_names(cs))
            &&& forall|k: Seq<char>| #[trigger] config_names(cs).contains(k) ==> !process_names(ss).contains(k)
                && !service_names(ss).contains(k) && k != sname
        }),
    decreases es.len(),
{
    if es.len() > 0 {
        lemma_build_processes_fresh(ss, sname, es.drop_last());
        let done = build_processes(ss, sname, es.drop_last())->Ok_0;
        let cs = build_processes(ss, sname, es)->Ok_0;
        let entry = es.last();
        match entry.0 {
            YamlValue::Str(p) => match index_node(entry.1, "cmd"@) {
                YamlValue::Str(cmd) => {
                    let c = config_of(p@, cmd@, entry.1);
                    assert(cs == done.push(c));
                    assert(config_names(cs) =~= config_names(done).push(p@));
                    lemma_no_dups_push(config_names(done), p@);
                    assert forall|k: Seq<char>| #[trigger] config_names(cs).contains(k) implies !process_names(ss).contains(k)
                        && !service_names(ss).contains(k) && k != sname by {
                        let i = choose|i: int| 0 <= i < config_names(cs).len() && config_names(cs)[i] == k;
                        if i < config_names(done).len() {
                            assert(config_names(done)[i] == k);
                            assert(config_names(done).contains(k));
                        }
                    }
                },
                _ => {},
            },
            _ => {},
        }
    } else {
        assert(config_names(Seq::<ConfigView>::empty()) =~= Seq::<Seq<char>>::empty());
    }
}

/// The services read from a document leave no ambiguity: no two services
/// share a name, no two programs share a name even across services, and no
/// program has the name of a service.
pub proof fn lemma_build_services_unambiguous(es: Seq<(YamlValue, YamlValue)>)
    requires
        build_services(es) is Ok,
    ensures
        ({
            let ss = build_services(es)->Ok_0;
            &&& no_dups(service_names(ss))
            &&& no_dups(process_names(ss))
            &&& forall|k: Seq<char>| #[trigger] service_names(ss).contains(k) ==> !process_names(ss).contains(k)
        }),
    decreases es.len(),
{
    if es.len() == 0 {
        let ss = Seq::<ServiceConfigView>::empty();
        assert(service_names(ss) =~= Seq::<Seq<char>>::empty());
    } else {
        lemma_build_services_unambiguous(es.drop_last());
        let ss = build_services(es.drop_last())->Ok_0;
        let entry = es.last();
        match entry.0 {
            YamlValue::Str(s) => match entry.1 {
                YamlValue::Hash(pes) => {
                    lemma_build_processes_fresh(ss, s@, pes@);
                    let cs = build_processes(ss, s@, pes@)->Ok_0;
                    let x = ServiceConfigView { name: s@, processes: cs };
                    let ss2 = ss.push(x);
                    assert(build_services(es)->Ok_0 == ss2);
                    assert(ss2.drop_last() =~= ss);
                    assert(process_names(ss2) == process_names(ss) + config_names(cs));
                    assert(service_names(ss2) =~= service_names(ss).push(s@));
                    lemma_no_dups_push(service_names(ss), s@);
                    assert forall|k: Seq<char>| process_names(ss).contains(k) implies !config_names(cs).contains(k) by {
                        if config_names(cs).contains(k) {
                            assert(!process_names(ss).contains(k));
                        }
                    }
                    lemma_no_dups_concat(process_names(ss), config_names(cs));
                    assert forall|k: Seq<char>| #[trigger] service_names(ss2).contains(k) implies !process_names(ss2).contains(k) by {
                        let i = choose|i: int| 0 <= i < service_names(ss2).len() && service_names(ss2)[i] == k;
                        if i < service_names(ss).len() {
                            assert(service_names(ss)[i] == k);
                            assert(service_names(ss).contains(k));
                        }
                        if process_names(ss2).contains(k) {
                            let j = choose|j: int| 0 <= j < process_names(ss2).len() && process_names(ss2)[j] == k;
                            if j < process_names(ss).len() {
                                assert(process_names(ss)[j] == k);
                                assert(process_names(ss).contains(k));
                            } else {
                                assert(config_names(cs)[j - process_names(ss).len()] == k);
                                assert(config_names(cs).contains(k));
                            }
                        }
                    }
                },
                _ => {},
            },
            _ => {},
        }
    }
}

/// Whatever services a configuration text describes are unambiguous.
pub proof fn lemma_config_text_unambiguous(text: Seq<char>)
    requires
        config_text_of(text) is Ok,
    ensures
        ({
            let ss = config_text_of(text)->Ok_0;
            &&& no_dups(service_names(ss))
            &&& no_dups(process_names(ss))
            &&& forall|k: Seq<char>| #[trigger] service_names(ss).contains(k) ==> !process_names(ss).contains(k)
        }),
{
    let docs = yaml_documents(text)->Some_0;
    match docs[0] {
        YamlValue::Hash(es) => {
            lemma_build_services_unambiguous(es@);
        },
        _ => {},
    }
}

} // verus!
