//! The supervisor's table of services, what reading the configuration anew
//! does to it, and where a command's instruction goes.
use vstd::prelude::*;
use crate::text::same_text;
use crate::yaml::YamlValue;
use crate::tm_mod::cmd::{Cmd, Target, TargetView};
use crate::tm_mod::config::Config;
use crate::tm_mod::config_file::{ServiceConfig, ServiceConfigView, config_from_docs, config_map_of, config_text_of, no_dups, service_names, process_names, config_names, lemma_config_text_unambiguous};
use crate::tm_mod::exec_error::{ExecError, ExecErrors, ExecErrorView};
use crate::tm_mod::service::{Service, ServiceView, groups_wf, find_group, process_steps, all_steps, launch_groups, service_reread, lemma_launch_groups_wf, lemma_service_reread_wf, config_names_distinct, groups_match, lemma_service_reread_matches, lemma_launch_groups_matches, kept_group, lemma_service_reread_removals, lemma_launch_groups_no_removal, lemma_service_reread_unchanged};
use crate::tm_mod::service::thread::{GroupView, ThreadAction, ActionView, Step, StepView};

verus! {

/// The first service named `n`.
pub open spec fn find_service(ss: Seq<ServiceView>, n: Seq<char>) -> Option<int>
    decreases ss.len(),
{
    if ss.len() == 0 {
        None
    } else if ss[0].name == n {
        Some(0)
    } else {
        match find_service(ss.drop_first(), n) {
            Some(i) => Some(i + 1),
            None => None,
        }
    }
}

pub proof fn lemma_find_service(ss: Seq<ServiceView>, n: Seq<char>)
    ensures
        match find_service(ss, n) {
            Some(i) => 0 <= i < ss.len() && ss[i].name == n && forall|j: int| 0 <= j < i ==> ss[j].name != n,
            None => forall|j: int| 0 <= j < ss.len() ==> ss[j].name != n,
        },
    decreases ss.len(),
{
    if ss.len() > 0 {
        lemma_find_service(ss.drop_first(), n);
        if ss[0].name != n {
            match find_service(ss.drop_first(), n) {
                Some(i) => {
                    assert forall|j: int| 0 <= j < i + 1 implies ss[j].name != n by {
                        if j > 0 {
                            assert(ss[j] == ss.drop_first()[j - 1]);
                        }
                    }
                },
                None => {
                    assert forall|j: int| 0 <= j < ss.len() implies ss[j].name != n by {
                        if j > 0 {
                            assert(ss[j] == ss.drop_first()[j - 1]);
                        }
                    }
                },
            }
        }
    }
}

/// The first service that runs a program named `p`.
pub open spec fn service_with_process(ss: Seq<ServiceView>, p: Seq<char>) -> Option<int>
    decreases ss.len(),
{
    if ss.len() == 0 {
        None
    } else if find_group(ss[0].groups, p) is Some {
        Some(0)
    } else {
        match service_with_process(ss.drop_first(), p) {
            Some(i) => Some(i + 1),
            None => None,
        }
    }
}

pub proof fn lemma_service_with_process(ss: Seq<ServiceView>, p: Seq<char>)
    ensures
        match service_with_process(ss, p) {
            Some(i) => 0 <= i < ss.len() && find_group(ss[i].groups, p) is Some
                && forall|j: int| 0 <= j < i ==> find_group(ss[j].groups, p) is None,
            None => forall|j: int| 0 <= j < ss.len() ==> find_group(ss[j].groups, p) is None,
        },
    decreases ss.len(),
{
    if ss.len() > 0 {
        lemma_service_with_process(ss.drop_first(), p);
        if find_group(ss[0].groups, p) is None {
            match service_with_process(ss.drop_first(), p) {
                Some(i) => {
                    assert forall|j: int| 0 <= j < i + 1 implies find_group(ss[j].groups, p) is None by {
                        if j > 0 {
                            assert(ss[j] == ss.drop_first()[j - 1]);
                        }
                    }
                },
                None => {
                    assert forall|j: int| 0 <= j < ss.len() implies find_group(ss[j].groups, p) is None by {
                        if j > 0 {
                            assert(ss[j] == ss.drop_first()[j - 1]);
                        }
                    }
                },
            }
        }
    }
}

/// Every thread of every service, service after service.
pub open spec fn every_step(ss: Seq<ServiceView>) -> Seq<StepView>
    decreases ss.len(),
{
    if ss.len() == 0 {
        Seq::<StepView>::empty()
    } else {
        every_step(ss.drop_last()) + all_steps(ss.last().name, ss.last().groups)
    }
}

/// Where an instruction for target `t` goes. A program is looked for in the
/// services in order; a missing program or service is an error.
pub open spec fn target_steps(ss: Seq<ServiceView>, t: TargetView) -> Seq<StepView> {
    match t {
        TargetView::ALL => every_step(ss),
        TargetView::Process(p, id) => match service_with_process(ss, p) {
            Some(i) => process_steps(ss[i], p, id),
            None => seq![StepView::Fail(ExecErrorView::ProcessName(p))],
        },
        TargetView::Service(s) => match find_service(ss, s) {
            Some(i) => all_steps(ss[i].name, ss[i].groups),
            None => seq![StepView::Fail(ExecErrorView::ServiceName(s))],
        },
        TargetView::ServiceProcess(s, p, id) => match find_service(ss, s) {
            Some(i) => process_steps(ss[i], p, id),
            None => seq![StepView::Fail(ExecErrorView::ServiceName(s))],
        },
    }
}

/// Where the instruction goes for each target, target after target.
pub open spec fn cmd_steps(ss: Seq<ServiceView>, ts: Seq<TargetView>) -> Seq<StepView>
    decreases ts.len(),
{
    if ts.len() == 0 {
        Seq::<StepView>::empty()
    } else {
        cmd_steps(ss, ts.drop_last()) + target_steps(ss, ts.last())
    }
}

/// The errors of carrying an instruction out along `steps`, where `sent[i]`
/// tells whether step `i` reached its thread: the routing errors, and a
/// sending error for each thread not reached, in order.
pub open spec fn outcome_errors(steps: Seq<StepView>, sent: Seq<bool>) -> Seq<ExecErrorView>
    decreases steps.len(),
{
    if steps.len() == 0 {
        Seq::<ExecErrorView>::empty()
    } else {
        let prev = outcome_errors(steps.drop_last(), sent);
        match steps.last() {
            StepView::Fail(e) => prev.push(e),
            StepView::Send(_, p, id) => if sent[steps.len() - 1] {
                prev
            } else {
                prev.push(ExecErrorView::Sending(p, id))
            },
        }
    }
}

/// How many threads were reached, each of which answers once.
pub open spec fn delivered(steps: Seq<StepView>, sent: Seq<bool>) -> nat
    decreases steps.len(),
{
    if steps.len() == 0 {
        0
    } else {
        delivered(steps.drop_last(), sent) + match steps.last() {
            StepView::Send(..) => if sent[steps.len() - 1] { 1nat } else { 0nat },
            StepView::Fail(_) => 0nat,
        }
    }
}

pub proof fn lemma_delivered_le(steps: Seq<StepView>, sent: Seq<bool>)
    ensures
        delivered(steps, sent) <= steps.len(),
    decreases steps.len(),
{
    if steps.len() > 0 {
        lemma_delivered_le(steps.drop_last(), sent);
    }
}

#[derive(Debug)]
pub struct TmStruct<'tm> {
    config_file: &'tm str,
    service_hash: Vec<Service>,
}

pub struct TmView {
    pub config_file: Seq<char>,
    pub services: Seq<ServiceView>,
}

impl<'tm> View for TmStruct<'tm> {
    type V = TmView;

    closed spec fn view(&self) -> TmView {
        TmView { config_file: self.config_file@, services: self.service_hash.deep_view() }
    }
}

/// Services are keyed by name, and each keeps its groups well formed.
pub open spec fn services_wf(ss: Seq<ServiceView>) -> bool {
    &&& forall|i: int, j: int| 0 <= i < ss.len() && 0 <= j < ss.len() && i != j ==> ss[i].name != ss[j].name
    &&& forall|i: int| 0 <= i < ss.len() ==> groups_wf(#[trigger] ss[i].groups)
}

impl<'tm> TmStruct<'tm> {
    /// The table of services stays well formed.
    #[verifier::type_invariant]
    spec fn inv(self) -> bool {
        services_wf(self.service_hash.deep_view())
    }

    pub fn new(config_file: &'tm str) -> (tm: Self)
        ensures
            tm@.config_file == config_file@,
            tm@.services == Seq::<ServiceView>::empty(),
    {
        let tm = TmStruct { config_file, service_hash: Vec::new() };
        proof {
            assert(tm.service_hash.deep_view() =~= Seq::<ServiceView>::empty());
        }
        tm
    }

    pub fn config_file(&self) -> (r: &'tm str)
        ensures
            r@ == self@.config_file,
    {
        self.config_file
    }

    /// The position of the service named `s_name`.
    fn service_position(&self, s_name: &str) -> (r: Option<usize>)
        ensures
            match r {
                Some(i) => find_service(self@.services, s_name@) == Some(i as int),
                None => find_service(self@.services, s_name@) is None,
            },
    {
        position_in(&self.service_hash, s_name)
    }
}

/// The position of the service named `s_name` in `table`.
fn position_in(table: &Vec<Service>, s_name: &str) -> (r: Option<usize>)
    ensures
        match r {
            Some(i) => find_service(table.deep_view(), s_name@) == Some(i as int),
            None => find_service(table.deep_view(), s_name@) is None,
        },
{
    let ghost ss = table.deep_view();
    let n = table.len();
    let mut i: usize = 0;
    proof {
        lemma_find_service(ss, s_name@);
    }
    while i < n
        invariant
            n == table.len(),
            ss == table.deep_view(),
            i <= n,
            forall|j: int| 0 <= j < i ==> ss[j].name != s_name@,
        decreases n - i,
    {
        if same_text(table[i].name.as_str(), s_name) {
            proof {
                lemma_find_service(ss, s_name@);
                assert(ss[i as int].name == s_name@);
            }
            return Some(i);
        }
        i = i + 1;
    }
    None
}


impl<'tm> TmStruct<'tm> {
    /// The first service that runs program `p_name`.
    fn process_owner(&self, p_name: &str) -> (r: Option<usize>)
        ensures
            match r {
                Some(i) => service_with_process(self@.services, p_name@) == Some(i as int),
                None => service_with_process(self@.services, p_name@) is None,
            },
    {
        let n = self.service_hash.len();
        let mut i: usize = 0;
        proof {
            lemma_service_with_process(self@.services, p_name@);
        }
        while i < n
            invariant
                n == self.service_hash.len(),
                self@.services == self.service_hash.deep_view(),
                i <= n,
                forall|j: int| 0 <= j < i ==> find_group(self@.services[j].groups, p_name@) is None,
            decreases n - i,
        {
            if self.service_hash[i].contains_process(p_name) {
                proof {
                    lemma_service_with_process(self@.services, p_name@);
                    assert(find_group(self@.services[i as int].groups, p_name@) is Some);
                }
                return Some(i);
            }
            i = i + 1;
        }
        None
    }

    fn send_to_process(&self, p_name: &str, thread_id: Option<usize>, steps: &mut Vec<Step>)
        ensures
            final(steps).deep_view() == old(steps).deep_view() + target_steps(self@.services, TargetView::Process(p_name@, thread_id)),
    {
        proof {
            lemma_service_with_process(self@.services, p_name@);
        }
        match self.process_owner(p_name) {
            Some(i) => {
                self.service_hash[i].send_to_process(p_name, thread_id, steps);
            },
            None => {
                let ghost start = steps.deep_view();
                let st = Step::Fail(ExecError::ProcessName(p_name.to_owned()));
                steps.push(st);
                proof {
                    assert(steps.deep_view() =~= start + seq![st@]);
                }
            },
        }
    }

    fn send_to_all_service(&self, steps: &mut Vec<Step>)
        ensures
            final(steps).deep_view() == old(steps).deep_view() + every_step(self@.services),
    {
        let ghost start = steps.deep_view();
        let ghost ss = self@.services;
        let n = self.service_hash.len();
        let mut i: usize = 0;
        proof {
            assert(ss.take(0) =~= Seq::<ServiceView>::empty());
            assert(steps.deep_view() =~= start + every_step(ss.take(0)));
        }
        while i < n
            invariant
                n == self.service_hash.len(),
                ss == self.service_hash.deep_view(),
                i <= n,
                steps.deep_view() == start + every_step(ss.take(i as int)),
            decreases n - i,
        {
            proof {
                assert(ss.take(i + 1).drop_last() =~= ss.take(i as int));
                assert(ss.take(i + 1).last() == self.service_hash[i as int]@);
            }
            self.service_hash[i].send_to_all_process(steps);
            proof {
                assert(steps.deep_view() =~= start + every_step(ss.take(i + 1)));
            }
            i = i + 1;
        }
        proof {
            assert(ss.take(n as int) =~= ss);
        }
    }

    fn send_to_service(&self, s_name: &str, steps: &mut Vec<Step>)
        ensures
            final(steps).deep_view() == old(steps).deep_view() + target_steps(self@.services, TargetView::Service(s_name@)),
    {
        proof {
            lemma_find_service(self@.services, s_name@);
        }
        match self.service_position(s_name) {
            Some(i) => {
                self.service_hash[i].send_to_all_process(steps);
            },
            None => {
                let ghost start = steps.deep_view();
                let st = Step::Fail(ExecError::ServiceName(s_name.to_owned()));
                steps.push(st);
                proof {
                    assert(steps.deep_view() =~= start + seq![st@]);
                }
            },
        }
    }

    fn send_to_service_process(&self, s_name: &str, p_name: &str, thread_id: Option<usize>, steps: &mut Vec<Step>)
        ensures
            final(steps).deep_view() == old(steps).deep_view() + target_steps(
                self@.services,
                TargetView::ServiceProcess(s_name@, p_name@, thread_id),
            ),
    {
        proof {
            lemma_find_service(self@.services, s_name@);
        }
        match self.service_position(s_name) {
            Some(i) => {
                self.service_hash[i].send_to_process(p_name, thread_id, steps);
            },
            None => {
                let ghost start = steps.deep_view();
                let st = Step::Fail(ExecError::ServiceName(s_name.to_owned()));
                steps.push(st);
                proof {
                    assert(steps.deep_view() =~= start + seq![st@]);
                }
            },
        }
    }

    /// Where the command's instruction goes: for each target in order, the
    /// threads to hand it to, or why there are none. The daemon hands the
    /// instruction over along these steps and reports back with
    /// `exec_outcome`.
    pub fn exec_cmd(&self, cmd: &Cmd) -> (steps: Vec<Step>)
        ensures
            steps.deep_view() == cmd_steps(self@.services, cmd@.target_vec),
    {
        let mut steps: Vec<Step> = Vec::new();
        let ghost ts = cmd@.target_vec;
        let n = cmd.target_vec.len();
        let mut i: usize = 0;
        proof {
            assert(ts.take(0) =~= Seq::<TargetView>::empty());
            assert(steps.deep_view() =~= Seq::<StepView>::empty());
        }
        while i < n
            invariant
                n == cmd.target_vec.len(),
                ts == cmd.target_vec.deep_view(),
                i <= n,
                steps.deep_view() == cmd_steps(self@.services, ts.take(i as int)),
            decreases n - i,
        {
            proof {
                assert(ts.take(i + 1).drop_last() =~= ts.take(i as int));
                assert(ts.take(i + 1).last() == cmd.target_vec[i as int]@);
            }
            match &cmd.target_vec[i] {
                Target::ALL => self.send_to_all_service(&mut steps),
                Target::Process(p_name, thread_id) => self.send_to_process(p_name.as_str(), *thread_id, &mut steps),
                Target::Service(s_name) => self.send_to_service(s_name.as_str(), &mut steps),
                Target::ServiceProcess((s_name, p_name, thread_id)) => self.send_to_service_process(
                    s_name.as_str(),
                    p_name.as_str(),
                    *thread_id,
                    &mut steps,
                ),
            }
            i = i + 1;
        }
        proof {
            assert(ts.take(n as int) =~= ts);
        }
        steps
    }
}

/// The result of carrying an instruction out along `steps`, where `sent[i]`
/// tells whether step `i` reached its thread: `nb_receive` counts the threads
/// reached, which will each answer; the errors are the routing errors and a
/// sending error for each thread not reached.
pub fn exec_outcome(steps: &Vec<Step>, sent: &Vec<bool>, nb_receive: &mut usize) -> (r: Result<(), ExecErrors>)
    requires
        sent.len() == steps.len(),
        *old(nb_receive) + steps.len() <= usize::MAX,
    ensures
        *final(nb_receive) == *old(nb_receive) + delivered(steps.deep_view(), sent@),
        r is Ok <==> outcome_errors(steps.deep_view(), sent@).len() == 0,
        r matches Err(es) ==> es.e_vect.deep_view() == outcome_errors(steps.deep_view(), sent@),
{
    let ghost sv = steps.deep_view();
    let ghost nb0 = *nb_receive;
    let mut e: Vec<ExecError> = Vec::new();
    let n = steps.len();
    let mut i: usize = 0;
    proof {
        assert(sv.take(0) =~= Seq::<StepView>::empty());
        assert(e.deep_view() =~= Seq::<ExecErrorView>::empty());
    }
    while i < n
        invariant
            n == steps.len(),
            n == sent.len(),
            sv == steps.deep_view(),
            i <= n,
            nb0 + n <= usize::MAX,
            e.deep_view() == outcome_errors(sv.take(i as int), sent@),
            *nb_receive == nb0 + delivered(sv.take(i as int), sent@),
        decreases n - i,
    {
        proof {
            assert(sv.take(i + 1).drop_last() =~= sv.take(i as int));
            assert(sv.take(i + 1).last() == steps[i as int]@);
            lemma_delivered_le(sv.take(i as int), sent@);
        }
        let ghost e0 = e.deep_view();
        match &steps[i] {
            Step::Fail(err) => {
                let c = err.clone();
                e.push(c);
                proof {
                    assert(e.deep_view() =~= e0.push(err@));
                }
            },
            Step::Send { service: _, process, thread } => {
                if sent[i] {
                    *nb_receive = *nb_receive + 1;
                } else {
                    let c = ExecError::Sending((process.clone(), *thread));
                    e.push(c);
                    proof {
                        assert(e.deep_view() =~= e0.push(c@));
                    }
                }
            },
        }
        i = i + 1;
    }
    proof {
        assert(sv.take(n as int) =~= sv);
    }
    ExecErrors::result_from_e_vec(e)
}


/// Every group of service `s` stopped, in order.
pub open spec fn remove_all(s: ServiceView) -> Seq<ActionView> {
    Seq::new(s.groups.len(), |i: int| ActionView::RemoveGroup(s.name, s.groups[i].config.name))
}

/// A fresh service for `sc`, and the actions that start it; a running
/// service of the same name is stopped and replaced.
pub open spec fn launch_service(ss: Seq<ServiceView>, sc: ServiceConfigView) -> (Seq<ServiceView>, Seq<ActionView>) {
    let (gs, a) = launch_groups(sc.name, Seq::<GroupView>::empty(), sc.processes);
    let sv = ServiceView { name: sc.name, groups: gs };
    match find_service(ss, sc.name) {
        Some(i) => (ss.update(i, sv), remove_all(ss[i]) + a),
        None => (ss.push(sv), a),
    }
}

/// Launches the services in order.
pub open spec fn launch_services(ss: Seq<ServiceView>, scs: Seq<ServiceConfigView>) -> (Seq<ServiceView>, Seq<ActionView>)
    decreases scs.len(),
{
    if scs.len() == 0 {
        (ss, Seq::<ActionView>::empty())
    } else {
        let (s1, a1) = launch_services(ss, scs.drop_last());
        let (s2, a2) = launch_service(s1, scs.last());
        (s2, a1 + a2)
    }
}

pub open spec fn sc_names(scs: Seq<ServiceConfigView>) -> Seq<Seq<char>> {
    scs.map_values(|sc: ServiceConfigView| sc.name)
}

/// The running services that stay, in order, and the actions that stop the others.
pub open spec fn drop_gone(ss: Seq<ServiceView>, new: Seq<ServiceConfigView>) -> (Seq<ServiceView>, Seq<ActionView>)
    decreases ss.len(),
{
    if ss.len() == 0 {
        (Seq::<ServiceView>::empty(), Seq::<ActionView>::empty())
    } else {
        let (k, a) = drop_gone(ss.drop_last(), new);
        let s = ss.last();
        if sc_names(new).contains(s.name) {
            (k.push(s), a)
        } else {
            (k, a + remove_all(s))
        }
    }
}

/// Launches the services that do not run yet; returns the services, the
/// actions, and the service configurations of those already running.
pub open spec fn add_services(ss: Seq<ServiceView>, new: Seq<ServiceConfigView>) -> (
    Seq<ServiceView>,
    Seq<ActionView>,
    Seq<ServiceConfigView>,
)
    decreases new.len(),
{
    if new.len() == 0 {
        (ss, Seq::<ActionView>::empty(), Seq::<ServiceConfigView>::empty())
    } else {
        let (s1, a1, r1) = add_services(ss, new.drop_last());
        let sc = new.last();
        if find_service(s1, sc.name) is Some {
            (s1, a1, r1.push(sc))
        } else {
            let (gs, a) = launch_groups(sc.name, Seq::<GroupView>::empty(), sc.processes);
            (s1.push(ServiceView { name: sc.name, groups: gs }), a1 + a, r1)
        }
    }
}

/// Reads each running service anew from its configuration, in order.
pub open spec fn update_services(ss: Seq<ServiceView>, rem: Seq<ServiceConfigView>) -> (Seq<ServiceView>, Seq<ActionView>)
    decreases rem.len(),
{
    if rem.len() == 0 {
        (ss, Seq::<ActionView>::empty())
    } else {
        let (s1, a1) = update_services(ss, rem.drop_last());
        let sc = rem.last();
        match find_service(s1, sc.name) {
            Some(i) => {
                let (g, a, _r) = service_reread(s1[i].name, s1[i].groups, sc.processes);
                (s1.update(i, ServiceView { name: s1[i].name, groups: g }), a1 + a)
            },
            None => (s1, a1),
        }
    }
}

/// The services after the configuration is read anew, and the actions on the
/// threads: services gone are stopped, new ones are started, and the others
/// are read anew program by program.
pub open spec fn tm_reread(ss: Seq<ServiceView>, new: Seq<ServiceConfigView>) -> (Seq<ServiceView>, Seq<ActionView>) {
    let (k, a1) = drop_gone(ss, new);
    let (s2, a2, rem) = add_services(k, new);
    let (s3, a3) = update_services(s2, rem);
    (s3, a1 + a2 + a3)
}

/// Every group of every running service stopped, service after service.
pub open spec fn remove_every(ss: Seq<ServiceView>) -> Seq<ActionView>
    decreases ss.len(),
{
    if ss.len() == 0 {
        Seq::<ActionView>::empty()
    } else {
        remove_every(ss.drop_last()) + remove_all(ss.last())
    }
}

/// Restarting on a configuration: every running group is stopped, then the
/// configuration is launched on an empty table.
pub open spec fn tm_reload(ss: Seq<ServiceView>, new: Seq<ServiceConfigView>) -> (Seq<ServiceView>, Seq<ActionView>) {
    let (s, a) = launch_services(Seq::<ServiceView>::empty(), new);
    (s, remove_every(ss) + a)
}

fn clone_configs(cs: &Vec<Config>) -> (r: Vec<Config>)
    ensures
        r.deep_view() == cs.deep_view(),
{
    let mut r: Vec<Config> = Vec::new();
    let n = cs.len();
    let mut i: usize = 0;
    while i < n
        invariant
            n == cs.len(),
            i <= n,
            r.deep_view() == cs.deep_view().take(i as int),
        decreases n - i,
    {
        let ghost b = r.deep_view();
        let c = cs[i].clone();
        r.push(c);
        proof {
            assert(r.deep_view() =~= b.push(c@));
            assert(cs.deep_view().take(i + 1) =~= cs.deep_view().take(i as int).push(cs.deep_view()[i as int]));
        }
        i = i + 1;
    }
    proof {
        assert(cs.deep_view().take(n as int) =~= cs.deep_view());
    }
    r
}

fn push_remove_all(s: &Service, acts: &mut Vec<ThreadAction>)
    ensures
        final(acts).deep_view() == old(acts).deep_view() + remove_all(s@),
{
    let ghost a0 = acts.deep_view();
    let n = s.thread_hash.len();
    let mut i: usize = 0;
    while i < n
        invariant
            n == s.thread_hash.len(),
            i <= n,
            acts.deep_view() == a0 + remove_all(s@).take(i as int),
        decreases n - i,
    {
        let ghost b = acts.deep_view();
        let a = ThreadAction::RemoveGroup { service: s.name.clone(), process: s.thread_hash[i].config.name.clone() };
        acts.push(a);
        proof {
            assert(acts.deep_view() =~= b.push(a@));
            assert(remove_all(s@).take(i + 1) =~= remove_all(s@).take(i as int).push(a@));
        }
        i = i + 1;
    }
    proof {
        assert(remove_all(s@).take(n as int) =~= remove_all(s@));
    }
}

fn has_service_config(new: &Vec<ServiceConfig>, n: &str) -> (r: bool)
    ensures
        r == sc_names(new.deep_view()).contains(n@),
{
    let m = new.len();
    let mut i: usize = 0;
    while i < m
        invariant
            m == new.len(),
            i <= m,
            forall|j: int| 0 <= j < i ==> sc_names(new.deep_view())[j] != n@,
        decreases m - i,
    {
        if same_text(new[i].name.as_str(), n) {
            proof {
                assert(sc_names(new.deep_view())[i as int] == n@);
            }
            return true;
        }
        i = i + 1;
    }
    false
}

impl<'tm> TmStruct<'tm> {
    /// Starts a service for each service configuration, in order.
    pub fn launch_from_hash(&mut self, map: Vec<ServiceConfig>) -> (acts: Vec<ThreadAction>)
        ensures
            final(self)@.config_file == old(self)@.config_file,
            final(self)@.services == launch_services(old(self)@.services, map.deep_view()).0,
            acts.deep_view() == launch_services(old(self)@.services, map.deep_view()).1,
            services_wf(final(self)@.services),
    {
        proof {
            use_type_invariant(&*self);
        }
        let mut table: Vec<Service> = Vec::new();
        std::mem::swap(&mut table, &mut self.service_hash);
        let ghost s0 = table.deep_view();
        let ghost scs = map.deep_view();
        let mut acts: Vec<ThreadAction> = Vec::new();
        let n = map.len();
        let mut i: usize = 0;
        proof {
            assert(scs.take(0) =~= Seq::<ServiceConfigView>::empty());
            assert(acts.deep_view() =~= Seq::<ActionView>::empty());
        }
        while i < n
            invariant
                n == map.len(),
                scs == map.deep_view(),
                i <= n,
                self@.config_file == old(self)@.config_file,
                table.deep_view() == launch_services(s0, scs.take(i as int)).0,
                services_wf(table.deep_view()),
                acts.deep_view() == launch_services(s0, scs.take(i as int)).1,
            decreases n - i,
        {
            let sc = &map[i];
            proof {
                assert(scs.take(i + 1).drop_last() =~= scs.take(i as int));
                assert(scs.take(i + 1).last() == sc@);
                lemma_find_service(table.deep_view(), sc@.name);
            }
            let ghost ss_before = table.deep_view();
            let ghost a_before = acts.deep_view();
            let mut s = Service::new(sc.name.clone());
            let pos = position_in(&table, sc.name.as_str());
            match pos {
                Some(k) => {
                    push_remove_all(&table[k], &mut acts);
                    proof {
                        assert(table[k as int]@ == ss_before[k as int]);
                    }
                },
                None => {},
            }
            let ghost a_mid = acts.deep_view();
            s.launch_from_hash(clone_configs(&sc.processes), &mut acts);
            proof {
                assert(acts.deep_view() =~= a_mid + launch_groups(sc@.name, Seq::<GroupView>::empty(), sc@.processes).1);
                lemma_launch_service_wf(ss_before, sc@);
                assert(s@ == ServiceView { name: sc@.name, groups: launch_groups(sc@.name, Seq::<GroupView>::empty(), sc@.processes).0 });
            }
            match pos {
                Some(k) => {
                    table.set(k, s);
                    proof {
                        assert(table.deep_view() =~= ss_before.update(k as int, s@));
                    }
                },
                None => {
                    table.push(s);
                    proof {
                        assert(table.deep_view() =~= ss_before.push(s@));
                    }
                },
            }
            i = i + 1;
        }
        proof {
            assert(scs.take(n as int) =~= scs);
        }
        self.service_hash = table;
        acts
    }

    /// Reads the configuration from its YAML documents into the map of
    /// services that it describes.
    pub fn hash_config(&self, docs: &Vec<YamlValue>) -> (map: Vec<ServiceConfig>)
        requires
            config_map_of(docs@) is Ok,
        ensures
            config_map_of(docs@) == Ok::<Seq<ServiceConfigView>, crate::tm_mod::config::ConfigErrorView>(map.deep_view()),
    {
        match config_from_docs(docs) {
            Ok(map) => map,
            Err(_) => {
                proof {
                    assert(false);
                }
                Vec::new()
            },
        }
    }
}


proof fn lemma_push_fresh_service(ss: Seq<ServiceView>, s: ServiceView)
    requires
        services_wf(ss),
        groups_wf(s.groups),
        forall|j: int| 0 <= j < ss.len() ==> ss[j].name != s.name,
    ensures
        services_wf(ss.push(s)),
{
    let r = ss.push(s);
    assert forall|a: int, b: int| 0 <= a < r.len() && 0 <= b < r.len() && a != b implies r[a].name != r[b].name by {
        if a < ss.len() && b < ss.len() {
            assert(r[a] == ss[a] && r[b] == ss[b]);
        } else if a < ss.len() {
            assert(r[a] == ss[a]);
        } else {
            assert(r[b] == ss[b]);
        }
    }
    assert forall|a: int| 0 <= a < r.len() implies groups_wf(#[trigger] r[a].groups) by {
        if a < ss.len() {
            assert(r[a] == ss[a]);
        }
    }
}

proof fn lemma_update_service(ss: Seq<ServiceView>, i: int, s: ServiceView)
    requires
        services_wf(ss),
        0 <= i < ss.len(),
        groups_wf(s.groups),
        s.name == ss[i].name,
    ensures
        services_wf(ss.update(i, s)),
{
    let r = ss.update(i, s);
    assert forall|a: int, b: int| 0 <= a < r.len() && 0 <= b < r.len() && a != b implies r[a].name != r[b].name by {
        assert(r[a].name == ss[a].name && r[b].name == ss[b].name);
    }
    assert forall|a: int| 0 <= a < r.len() implies groups_wf(#[trigger] r[a].groups) by {
        if a != i {
            assert(r[a] == ss[a]);
        }
    }
}

pub(crate) proof fn lemma_drop_gone_wf(ss: Seq<ServiceView>, new: Seq<ServiceConfigView>)
    requires
        services_wf(ss),
    ensures
        services_wf(drop_gone(ss, new).0),
        forall|i: int| 0 <= i < drop_gone(ss, new).0.len() ==> exists|j: int| 0 <= j < ss.len()
            && #[trigger] drop_gone(ss, new).0[i] == ss[j],
    decreases ss.len(),
{
    if ss.len() > 0 {
        let pre = ss.drop_last();
        assert(services_wf(pre)) by {
            assert forall|a: int, b: int| 0 <= a < pre.len() && 0 <= b < pre.len() && a != b implies pre[a].name != pre[b].name by {
                assert(pre[a] == ss[a] && pre[b] == ss[b]);
            }
            assert forall|a: int| 0 <= a < pre.len() implies groups_wf(#[trigger] pre[a].groups) by {
                assert(pre[a] == ss[a]);
            }
        }
        lemma_drop_gone_wf(pre, new);
        let k = drop_gone(pre, new).0;
        let s = ss.last();
        let r = drop_gone(ss, new).0;
        if sc_names(new).contains(s.name) {
            assert(r == k.push(s));
            assert forall|j: int| 0 <= j < k.len() implies k[j].name != s.name by {
                let m = choose|m: int| 0 <= m < pre.len() && k[j] == pre[m];
                assert(pre[m] == ss[m]);
            }
            assert(groups_wf(ss[ss.len() - 1].groups));
            lemma_push_fresh_service(k, s);
            assert forall|i: int| 0 <= i < r.len() implies exists|j: int| 0 <= j < ss.len() && #[trigger] r[i] == ss[j] by {
                if i < k.len() {
                    let m = choose|m: int| 0 <= m < pre.len() && k[i] == pre[m];
                    assert(pre[m] == ss[m]);
                    assert(r[i] == k[i]);
                } else {
                    assert(r[i] == ss[ss.len() - 1]);
                }
            }
        } else {
            assert(r == k);
            assert forall|i: int| 0 <= i < r.len() implies exists|j: int| 0 <= j < ss.len() && #[trigger] r[i] == ss[j] by {
                let m = choose|m: int| 0 <= m < pre.len() && k[i] == pre[m];
                assert(pre[m] == ss[m]);
            }
        }
    }
}

pub(crate) proof fn lemma_add_services_wf(ss: Seq<ServiceView>, new: Seq<ServiceConfigView>)
    requires
        services_wf(ss),
    ensures
        services_wf(add_services(ss, new).0),
    decreases new.len(),
{
    if new.len() > 0 {
        lemma_add_services_wf(ss, new.drop_last());
        let s1 = add_services(ss, new.drop_last()).0;
        let sc = new.last();
        lemma_find_service(s1, sc.name);
        if find_service(s1, sc.name) is None {
            lemma_launch_groups_wf(sc.name, Seq::<GroupView>::empty(), sc.processes);
            let (gs, a) = launch_groups(sc.name, Seq::<GroupView>::empty(), sc.processes);
            lemma_push_fresh_service(s1, ServiceView { name: sc.name, groups: gs });
        }
    }
}

pub(crate) proof fn lemma_update_services_wf(ss: Seq<ServiceView>, rem: Seq<ServiceConfigView>)
    requires
        services_wf(ss),
    ensures
        services_wf(update_services(ss, rem).0),
    decreases rem.len(),
{
    if rem.len() > 0 {
        lemma_update_services_wf(ss, rem.drop_last());
        let s1 = update_services(ss, rem.drop_last()).0;
        let sc = rem.last();
        lemma_find_service(s1, sc.name);
        match find_service(s1, sc.name) {
            Some(i) => {
                assert(groups_wf(s1[i].groups));
                lemma_service_reread_wf(s1[i].name, s1[i].groups, sc.processes);
                let (g, a, r) = service_reread(s1[i].name, s1[i].groups, sc.processes);
                lemma_update_service(s1, i, ServiceView { name: s1[i].name, groups: g });
            },
            None => {},
        }
    }
}

/// Reading the configuration anew keeps the table of services well formed.
pub proof fn lemma_tm_reread_wf(ss: Seq<ServiceView>, new: Seq<ServiceConfigView>)
    requires
        services_wf(ss),
    ensures
        services_wf(tm_reread(ss, new).0),
{
    lemma_drop_gone_wf(ss, new);
    let k = drop_gone(ss, new).0;
    lemma_add_services_wf(k, new);
    let s2 = add_services(k, new).0;
    let rem = add_services(k, new).2;
    lemma_update_services_wf(s2, rem);
}

fn clone_service_config(sc: &ServiceConfig) -> (r: ServiceConfig)
    ensures
        r.deep_view() == sc.deep_view(),
{
    ServiceConfig { name: sc.name.clone(), processes: clone_configs(&sc.processes) }
}

impl<'tm> TmStruct<'tm> {
    /// Function used to reload the config file: `new` is the configuration
    /// read anew. Creates / deletes services. Only changes that affect runtime
    /// behavior trigger despawn-respawn of the process. If a process / service
    /// no longer exists in the config file, it is despawned.
    pub fn reread(&mut self, new: Vec<ServiceConfig>) -> (acts: Vec<ThreadAction>)
        ensures
            final(self)@.config_file == old(self)@.config_file,
            final(self)@.services == tm_reread(old(self)@.services, new.deep_view()).0,
            acts.deep_view() == tm_reread(old(self)@.services, new.deep_view()).1,
            services_wf(final(self)@.services),
    {
        proof {
            use_type_invariant(&*self);
        }
        let ghost ss = self@.services;
        let ghost nv = new.deep_view();
        proof {
            lemma_tm_reread_wf(ss, nv);
            lemma_drop_gone_wf(ss, nv);
            lemma_add_services_wf(drop_gone(ss, nv).0, nv);
        }
        let mut acts: Vec<ThreadAction> = Vec::new();
        let mut rest: Vec<Service> = Vec::new();
        std::mem::swap(&mut rest, &mut self.service_hash);
        let mut table: Vec<Service> = Vec::new();
        assert(rest.deep_view() == ss);
        // Stop services that the configuration no longer holds.
        let n = rest.len();
        let mut i: usize = 0;
        proof {
            assert(ss.take(0) =~= Seq::<ServiceView>::empty());
            assert(ss.skip(0) =~= ss);
            assert(table.deep_view() =~= Seq::<ServiceView>::empty());
            assert(acts.deep_view() =~= Seq::<ActionView>::empty());
        }
        while i < n
            invariant
                n == ss.len(),
                i <= n,
                rest.deep_view() == ss.skip(i as int),
                nv == new.deep_view(),
                self@.config_file == old(self)@.config_file,
                services_wf(ss),
                table.deep_view() == drop_gone(ss.take(i as int), nv).0,
                acts.deep_view() == drop_gone(ss.take(i as int), nv).1,
            decreases n - i,
        {
            let ghost r0 = rest.deep_view();
            assert(r0.len() == n - i);
            assert(rest.len() == r0.len());
            let s = rest.remove(0);
            proof {
                assert(s@ == r0[0]);
                assert(rest.deep_view() =~= r0.drop_first());
                assert(ss.skip(i + 1) =~= ss.skip(i as int).drop_first());
                assert(ss.take(i + 1).drop_last() =~= ss.take(i as int));
                assert(ss.take(i + 1).last() == s@);
            }
            let ghost k0 = table.deep_view();
            let ghost a0 = acts.deep_view();
            proof {
                lemma_services_wf_take(ss, i + 1);
                lemma_drop_gone_wf(ss.take(i + 1), nv);
            }
            if has_service_config(&new, s.name.as_str()) {
                table.push(s);
                proof {
                    assert(table.deep_view() =~= k0.push(s@));
                }
            } else {
                push_remove_all(&s, &mut acts);
            }
            i = i + 1;
        }
        proof {
            assert(ss.take(n as int) =~= ss);
        }
        // Start services that are new.
        let ghost k = table.deep_view();
        proof {
            lemma_services_wf_take(ss, n as int);
            lemma_drop_gone_wf(ss, nv);
        }
        let ghost a1 = acts.deep_view();
        let mut remaining: Vec<ServiceConfig> = Vec::new();
        let m = new.len();
        let mut j: usize = 0;
        proof {
            assert(nv.take(0) =~= Seq::<ServiceConfigView>::empty());
            assert(remaining.deep_view() =~= Seq::<ServiceConfigView>::empty());
            assert(acts.deep_view() =~= a1 + add_services(k, nv.take(0)).1);
        }
        while j < m
            invariant
                m == new.len(),
                j <= m,
                nv == new.deep_view(),
                self@.config_file == old(self)@.config_file,
                table.deep_view() == table.deep_view(),
                services_wf(k),
                table.deep_view() == add_services(k, nv.take(j as int)).0,
                acts.deep_view() == a1 + add_services(k, nv.take(j as int)).1,
                remaining.deep_view() == add_services(k, nv.take(j as int)).2,
            decreases m - j,
        {
            let sc = &new[j];
            proof {
                assert(nv.take(j + 1).drop_last() =~= nv.take(j as int));
                assert(nv.take(j + 1).last() == sc@);
            }
            let ghost k0 = table.deep_view();
            let ghost b0 = acts.deep_view();
            let ghost r0 = remaining.deep_view();
            proof {
                lemma_add_services_wf(k, nv.take(j + 1));
            }
            if position_in(&table, sc.name.as_str()).is_some() {
                let c = clone_service_config(sc);
                remaining.push(c);
                proof {
                    assert(remaining.deep_view() =~= r0.push(sc@));
                }
            } else {
                let mut s = Service::new(sc.name.clone());
                s.launch_from_hash(clone_configs(&sc.processes), &mut acts);
                table.push(s);
                proof {
                    assert(table.deep_view() =~= k0.push(s@));
                }
            }
            j = j + 1;
        }
        proof {
            assert(nv.take(m as int) =~= nv);
        }
        // Read anew the services that stay.
        let ghost s2 = table.deep_view();
        let ghost rem = remaining.deep_view();
        let ghost a2 = acts.deep_view();
        let r = remaining.len();
        let mut t: usize = 0;
        proof {
            assert(rem.take(0) =~= Seq::<ServiceConfigView>::empty());
            assert(acts.deep_view() =~= a2 + update_services(s2, rem.take(0)).1);
            lemma_update_services_wf(s2, Seq::<ServiceConfigView>::empty());
        }
        while t < r
            invariant
                r == remaining.len(),
                t <= r,
                rem == remaining.deep_view(),
                services_wf(s2),
                self@.config_file == old(self)@.config_file,
                table.deep_view() == table.deep_view(),
                table.deep_view() == update_services(s2, rem.take(t as int)).0,
                services_wf(table.deep_view()),
                acts.deep_view() == a2 + update_services(s2, rem.take(t as int)).1,
            decreases r - t,
        {
            let sc = &remaining[t];
            proof {
                assert(rem.take(t + 1).drop_last() =~= rem.take(t as int));
                assert(rem.take(t + 1).last() == sc@);
                lemma_find_service(table.deep_view(), sc@.name);
                lemma_update_services_wf(s2, rem.take(t + 1));
            }
            let ghost u0 = table.deep_view();
            match position_in(&table, sc.name.as_str()) {
                Some(pos) => {
                    let mut procs = clone_configs(&sc.processes);
                    proof {
                        lemma_services_wf_remove(u0, pos as int);
                    }
                    let mut s = table.remove(pos);
                    proof {
                        assert(s@ == u0[pos as int]);
                        assert(groups_wf(u0[pos as int].groups));
                    }
                    let ghost before = s@;
                    s.reread(&mut procs, &mut acts);
                    proof {
                        lemma_service_reread_wf(before.name, before.groups, sc@.processes);
                        lemma_update_service(u0, pos as int, s@);
                        assert(u0.remove(pos as int).insert(pos as int, s@) =~= u0.update(pos as int, s@));
                    }
                    table.insert(pos, s);
                    proof {
                        assert(table.deep_view() =~= u0.update(pos as int, s@));
                    }
                },
                None => {},
            }
            t = t + 1;
        }
        proof {
            assert(rem.take(r as int) =~= rem);
            assert(acts.deep_view() =~= tm_reread(ss, nv).1);
        }
        self.service_hash = table;
        acts
    }
}


impl<'tm> TmStruct<'tm> {
    /// Restarts the supervisor on the configuration `new`, read anew: stops
    /// every process, then launches everything `new` describes.
    pub fn reload(&mut self, new: Vec<ServiceConfig>) -> (acts: Vec<ThreadAction>)
        ensures
            final(self)@.config_file == old(self)@.config_file,
            final(self)@.services == tm_reload(old(self)@.services, new.deep_view()).0,
            acts.deep_view() == tm_reload(old(self)@.services, new.deep_view()).1,
            services_wf(final(self)@.services),
    {
        proof {
            use_type_invariant(&*self);
        }
        let mut table: Vec<Service> = Vec::new();
        std::mem::swap(&mut table, &mut self.service_hash);
        let ghost ss = table.deep_view();
        let mut acts: Vec<ThreadAction> = Vec::new();
        let n = table.len();
        let mut i: usize = 0;
        proof {
            assert(ss.take(0) =~= Seq::<ServiceView>::empty());
            assert(acts.deep_view() =~= Seq::<ActionView>::empty());
        }
        while i < n
            invariant
                n == table.len(),
                ss == table.deep_view(),
                i <= n,
                acts.deep_view() == remove_every(ss.take(i as int)),
            decreases n - i,
        {
            push_remove_all(&table[i], &mut acts);
            proof {
                assert(ss.take(i + 1).drop_last() =~= ss.take(i as int));
                assert(ss.take(i + 1).last() == table[i as int]@);
            }
            i = i + 1;
        }
        proof {
            assert(ss.take(n as int) =~= ss);
            assert(self@.services == Seq::<ServiceView>::empty());
        }
        let mut more = self.launch_from_hash(new);
        let ghost a0 = acts.deep_view();
        let ghost m0 = more.deep_view();
        acts.append(&mut more);
        proof {
            assert(acts.deep_view() =~= a0 + m0);
        }
        acts
    }
}


/// No two services of the configuration share a name, nor two programs of a
/// service.
pub open spec fn service_configs_distinct(new: Seq<ServiceConfigView>) -> bool {
    &&& forall|i: int, j: int| 0 <= i < new.len() && 0 <= j < new.len() && i != j ==> new[i].name != new[j].name
    &&& forall|i: int| 0 <= i < new.len() ==> config_names_distinct(#[trigger] new[i].processes)
}

/// The service runs what the configuration holds for it.
pub open spec fn runs_service_config(s: ServiceView, new: Seq<ServiceConfigView>) -> bool {
    exists|j: int| 0 <= j < new.len() && new[j].name == s.name && groups_match(s.groups, #[trigger] new[j].processes)
}

/// The running services are exactly the configured ones, each running its
/// programs' configurations.
pub open spec fn services_match(ss: Seq<ServiceView>, new: Seq<ServiceConfigView>) -> bool {
    &&& forall|i: int| 0 <= i < ss.len() ==> runs_service_config(#[trigger] ss[i], new)
    &&& forall|k: int| 0 <= k < new.len() ==> #[trigger] find_service(ss, new[k].name) is Some
}

proof fn lemma_drop_gone_names(ss: Seq<ServiceView>, new: Seq<ServiceConfigView>)
    ensures
        forall|i: int| 0 <= i < drop_gone(ss, new).0.len() ==> sc_names(new).contains(
            #[trigger] drop_gone(ss, new).0[i].name,
        ),
    decreases ss.len(),
{
    if ss.len() > 0 {
        lemma_drop_gone_names(ss.drop_last(), new);
        let k = drop_gone(ss.drop_last(), new).0;
        let r = drop_gone(ss, new).0;
        if sc_names(new).contains(ss.last().name) {
            assert forall|i: int| 0 <= i < r.len() implies sc_names(new).contains(#[trigger] r[i].name) by {
                if i < k.len() {
                    assert(r[i] == k[i]);
                }
            }
        }
    }
}

pub proof fn lemma_find_service_push(ss: Seq<ServiceView>, x: ServiceView, n: Seq<char>)
    requires
        find_service(ss, n) is Some,
    ensures
        find_service(ss.push(x), n) == find_service(ss, n),
{
    lemma_find_service(ss, n);
    lemma_find_service(ss.push(x), n);
    let i = find_service(ss, n)->Some_0;
    assert(ss.push(x)[i] == ss[i]);
    match find_service(ss.push(x), n) {
        Some(j) => {
            if j < i {
                assert(ss.push(x)[j] == ss[j]);
            }
        },
        None => {},
    }
}

/// The service was launched for one of the first `m` configured services.
pub open spec fn launched_from(s: ServiceView, new: Seq<ServiceConfigView>, m: int) -> bool {
    exists|j: int| 0 <= j < m && new[j].name == s.name && groups_match(s.groups, #[trigger] new[j].processes)
}

/// What reading the new services in order does, up to `m` of them.
proof fn lemma_add_services_shape(k: Seq<ServiceView>, new: Seq<ServiceConfigView>, m: int)
    requires
        0 <= m <= new.len(),
        service_configs_distinct(new),
    ensures
        ({
            let (s2, a, rem) = add_services(k, new.take(m));
            &&& s2.len() >= k.len()
            &&& forall|i: int| 0 <= i < k.len() ==> #[trigger] s2[i] == k[i]
            &&& forall|i: int| k.len() <= i < s2.len() ==> launched_from(#[trigger] s2[i], new, m)
            &&& forall|t: int| 0 <= t < rem.len() ==> exists|j: int| 0 <= j < m && #[trigger] rem[t] == new[j]
            &&& forall|t: int| 0 <= t < rem.len() ==> exists|i: int| 0 <= i < k.len() && k[i].name == #[trigger] rem[t].name
            &&& forall|t: int, u: int| 0 <= t < rem.len() && 0 <= u < rem.len() && t != u ==> rem[t].name != rem[u].name
            &&& forall|j: int| 0 <= j < m ==> #[trigger] find_service(s2, new[j].name) is Some
            &&& forall|i: int, j: int| #![trigger k[i], new[j]] 0 <= i < k.len() && 0 <= j < m && k[i].name == new[j].name ==> exists|t: int|
                #![trigger rem[t]] 0 <= t < rem.len() && rem[t].name == k[i].name
        }),
    decreases m,
{
    let p = new.take(m);
    if m == 0 {
        assert(p =~= Seq::<ServiceConfigView>::empty());
    } else {
        assert(p.drop_last() =~= new.take(m - 1));
        lemma_add_services_shape(k, new, m - 1);
        let (s1, a1, r1) = add_services(k, new.take(m - 1));
        let sc = p.last();
        assert(sc == new[m - 1]);
        let (s2, a2, rem) = add_services(k, p);
        lemma_find_service(s1, sc.name);
        if find_service(s1, sc.name) is Some {
            assert(s2 == s1 && rem == r1.push(sc));
            let i0 = find_service(s1, sc.name)->Some_0;
            if i0 >= k.len() {
                assert(launched_from(s1[i0], new, m - 1));
                let j = choose|j: int| 0 <= j < m - 1 && new[j].name == s1[i0].name && groups_match(s1[i0].groups, #[trigger] new[j].processes);
                assert(new[j].name == new[m - 1].name);
                assert(false);
            }
            assert(s1[i0] == k[i0]);
            assert forall|t: int| 0 <= t < r1.len() implies rem[t].name != sc.name by {
                let j = choose|j: int| 0 <= j < m - 1 && #[trigger] r1[t] == new[j];
                assert(rem[t] == r1[t]);
            }
            assert forall|i: int| k.len() <= i < s2.len() implies launched_from(#[trigger] s2[i], new, m) by {
                assert(launched_from(s1[i], new, m - 1));
                let j = choose|j: int| 0 <= j < m - 1 && new[j].name == s1[i].name && groups_match(s1[i].groups, #[trigger] new[j].processes);
            }
            assert forall|t: int| 0 <= t < rem.len() implies exists|j: int| 0 <= j < m && #[trigger] rem[t] == new[j] by {
                if t < r1.len() {
                    let j = choose|j: int| 0 <= j < m - 1 && #[trigger] r1[t] == new[j];
                    assert(rem[t] == new[j]);
                } else {
                    assert(rem[t] == new[m - 1]);
                }
            }
            assert forall|t: int| 0 <= t < rem.len() implies exists|i: int| 0 <= i < k.len() && k[i].name == #[trigger] rem[t].name by {
                if t < r1.len() {
                    assert(rem[t] == r1[t]);
                    let i = choose|i: int| 0 <= i < k.len() && k[i].name == #[trigger] r1[t].name;
                } else {
                    assert(k[i0].name == rem[t].name);
                }
            }
            assert forall|t: int, u: int| 0 <= t < rem.len() && 0 <= u < rem.len() && t != u implies rem[t].name != rem[u].name by {
                if t < r1.len() && u < r1.len() {
                    assert(rem[t] == r1[t] && rem[u] == r1[u]);
                }
            }
            assert forall|i: int, j: int| #![trigger k[i], new[j]] 0 <= i < k.len() && 0 <= j < m && k[i].name == new[j].name implies exists|t: int|
                #![trigger rem[t]] 0 <= t < rem.len() && rem[t].name == k[i].name by {
                if j == m - 1 {
                    assert(rem[rem.len() - 1].name == k[i].name);
                } else {
                    let t = choose|t: int| #![trigger r1[t]] 0 <= t < r1.len() && r1[t].name == k[i].name;
                    assert(rem[t] == r1[t]);
                }
            }
        } else {
            let (gs, a) = launch_groups(sc.name, Seq::<GroupView>::empty(), sc.processes);
            let x = ServiceView { name: sc.name, groups: gs };
            assert(s2 == s1.push(x) && rem == r1);
            assert(config_names_distinct(new[m - 1].processes));
            lemma_launch_groups_matches(sc.name, sc.processes, sc.processes.len() as int);
            assert(sc.processes.take(sc.processes.len() as int) =~= sc.processes);
            assert(groups_match(gs, new[m - 1].processes));
            assert(launched_from(x, new, m));
            assert forall|i: int| 0 <= i < k.len() implies #[trigger] s2[i] == k[i] by {
                assert(s2[i] == s1[i]);
            }
            assert forall|i: int| k.len() <= i < s2.len() implies launched_from(#[trigger] s2[i], new, m) by {
                if i < s1.len() {
                    assert(s2[i] == s1[i]);
                    assert(launched_from(s1[i], new, m - 1));
                    let j = choose|j: int| 0 <= j < m - 1 && new[j].name == s1[i].name && groups_match(s1[i].groups, #[trigger] new[j].processes);
                }
            }
            assert forall|t: int| 0 <= t < rem.len() implies exists|j: int| 0 <= j < m && #[trigger] rem[t] == new[j] by {
                let j = choose|j: int| 0 <= j < m - 1 && #[trigger] r1[t] == new[j];
            }
            assert forall|j: int| 0 <= j < m implies #[trigger] find_service(s2, new[j].name) is Some by {
                if j < m - 1 {
                    lemma_find_service_push(s1, x, new[j].name);
                } else {
                    lemma_find_service(s2, new[j].name);
                    assert(s2[s2.len() - 1].name == new[j].name);
                }
            }
            assert forall|i: int, j: int| #![trigger k[i], new[j]] 0 <= i < k.len() && 0 <= j < m && k[i].name == new[j].name implies exists|t: int|
                #![trigger rem[t]] 0 <= t < rem.len() && rem[t].name == k[i].name by {
                if j == m - 1 {
                    assert(s1[i] == k[i]);
                    assert(false);
                }
            }
        }
    }
}


proof fn lemma_find_service_same_names(a: Seq<ServiceView>, b: Seq<ServiceView>, n: Seq<char>)
    requires
        a.len() == b.len(),
        forall|i: int| 0 <= i < a.len() ==> #[trigger] a[i].name == b[i].name,
    ensures
        find_service(a, n) == find_service(b, n),
{
    lemma_find_service(a, n);
    lemma_find_service(b, n);
    match (find_service(a, n), find_service(b, n)) {
        (Some(i), Some(j)) => {
            if i < j {
                assert(b[i].name == a[i].name);
            } else if j < i {
                assert(a[j].name == b[j].name);
            }
        },
        (Some(i), None) => {
            assert(b[i].name == a[i].name);
        },
        (None, Some(j)) => {
            assert(a[j].name == b[j].name);
        },
        (None, None) => {},
    }
}

/// Reading the remaining services anew, up to `t` of them.
proof fn lemma_update_services_shape(s2: Seq<ServiceView>, rem: Seq<ServiceConfigView>, t: int)
    requires
        0 <= t <= rem.len(),
        services_wf(s2),
        forall|u: int, v: int| 0 <= u < rem.len() && 0 <= v < rem.len() && u != v ==> rem[u].name != rem[v].name,
        forall|u: int| 0 <= u < rem.len() ==> config_names_distinct(#[trigger] rem[u].processes),
    ensures
        ({
            let s3 = update_services(s2, rem.take(t)).0;
            &&& s3.len() == s2.len()
            &&& forall|i: int| 0 <= i < s2.len() ==> #[trigger] s3[i].name == s2[i].name
            &&& forall|i: int| 0 <= i < s2.len() ==> (exists|u: int|
                #![trigger rem[u]] 0 <= u < t && rem[u].name == s2[i].name && groups_match(s3[i].groups, rem[u].processes))
                || ((forall|u: int| 0 <= u < t ==> #[trigger] rem[u].name != s2[i].name) && #[trigger] s3[i] == s2[i])
        }),
    decreases t,
{
    let p = rem.take(t);
    if t == 0 {
        assert(p =~= Seq::<ServiceConfigView>::empty());
    } else {
        assert(p.drop_last() =~= rem.take(t - 1));
        lemma_update_services_shape(s2, rem, t - 1);
        let s1 = update_services(s2, rem.take(t - 1)).0;
        let sc = p.last();
        assert(sc == rem[t - 1]);
        let s3 = update_services(s2, p).0;
        lemma_find_service(s1, sc.name);
        match find_service(s1, sc.name) {
            Some(i0) => {
                let (g, a, r) = service_reread(s1[i0].name, s1[i0].groups, sc.processes);
                assert(s3 == s1.update(i0, ServiceView { name: s1[i0].name, groups: g }));
                lemma_service_reread_matches(s1[i0].name, s1[i0].groups, sc.processes);
                assert forall|i: int| 0 <= i < s2.len() implies #[trigger] s3[i].name == s2[i].name by {
                    assert(s1[i].name == s2[i].name);
                }
                assert forall|i: int| 0 <= i < s2.len() implies (exists|u: int|
                    #![trigger rem[u]] 0 <= u < t && rem[u].name == s2[i].name && groups_match(s3[i].groups, rem[u].processes))
                    || ((forall|u: int| 0 <= u < t ==> #[trigger] rem[u].name != s2[i].name) && #[trigger] s3[i] == s2[i]) by {
                    assert(s1[i].name == s2[i].name);
                    if i == i0 {
                        assert(rem[t - 1].name == s2[i].name);
                        assert(groups_match(s3[i].groups, rem[t - 1].processes));
                    } else {
                        assert(s3[i] == s1[i]);
                        assert(s2[i].name != s2[i0].name);
                        assert(rem[t - 1].name != s2[i].name);
                    }
                }
            },
            None => {
                assert(s3 == s1);
                assert forall|i: int| 0 <= i < s2.len() implies (exists|u: int|
                    #![trigger rem[u]] 0 <= u < t && rem[u].name == s2[i].name && groups_match(s3[i].groups, rem[u].processes))
                    || ((forall|u: int| 0 <= u < t ==> #[trigger] rem[u].name != s2[i].name) && #[trigger] s3[i] == s2[i]) by {
                    assert(s1[i].name == s2[i].name);
                    assert(rem[t - 1].name != s1[i].name);
                }
            },
        }
    }
}

/// Reading the configuration anew makes the supervisor run exactly what the
/// configuration holds: every configured service runs, no other does, and
/// every group runs the configuration of its program, with as many threads as
/// it asks for.
pub proof fn lemma_tm_reread_matches(ss: Seq<ServiceView>, new: Seq<ServiceConfigView>)
    requires
        services_wf(ss),
        service_configs_distinct(new),
    ensures
        services_match(tm_reread(ss, new).0, new),
        services_wf(tm_reread(ss, new).0),
{
    lemma_tm_reread_wf(ss, new);
    lemma_drop_gone_wf(ss, new);
    lemma_drop_gone_names(ss, new);
    let k = drop_gone(ss, new).0;
    lemma_add_services_wf(k, new);
    lemma_add_services_shape(k, new, new.len() as int);
    assert(new.take(new.len() as int) =~= new);
    let (s2, a2, rem) = add_services(k, new);
    assert forall|u: int| 0 <= u < rem.len() implies config_names_distinct(#[trigger] rem[u].processes) by {
        let j = choose|j: int| 0 <= j < new.len() && #[trigger] rem[u] == new[j];
    }
    lemma_update_services_shape(s2, rem, rem.len() as int);
    assert(rem.take(rem.len() as int) =~= rem);
    let s3 = update_services(s2, rem).0;
    assert(s3 == tm_reread(ss, new).0);
    assert forall|i: int| 0 <= i < s3.len() implies runs_service_config(#[trigger] s3[i], new) by {
        if i < k.len() {
            assert(s2[i] == k[i]);
            assert(sc_names(new).contains(k[i].name));
            let j = choose|j: int| 0 <= j < sc_names(new).len() && sc_names(new)[j] == k[i].name;
            assert(new[j].name == k[i].name);
            let t = choose|t: int| #![trigger rem[t]] 0 <= t < rem.len() && rem[t].name == k[i].name;
            if !(exists|u: int| #![trigger rem[u]] 0 <= u < rem.len() && rem[u].name == s2[i].name && groups_match(s3[i].groups, rem[u].processes)) {
                assert(rem[t].name != s2[i].name);
            }
            let u = choose|u: int| #![trigger rem[u]] 0 <= u < rem.len() && rem[u].name == s2[i].name && groups_match(s3[i].groups, rem[u].processes);
            let j2 = choose|j2: int| 0 <= j2 < new.len() && #[trigger] rem[u] == new[j2];
            assert(new[j2].name == s3[i].name && groups_match(s3[i].groups, new[j2].processes));
        } else {
            assert(launched_from(s2[i], new, new.len() as int));
            let j = choose|j: int| 0 <= j < new.len() && new[j].name == s2[i].name && groups_match(s2[i].groups, #[trigger] new[j].processes);
            if exists|u: int| #![trigger rem[u]] 0 <= u < rem.len() && rem[u].name == s2[i].name && groups_match(s3[i].groups, rem[u].processes) {
                let u = choose|u: int| #![trigger rem[u]] 0 <= u < rem.len() && rem[u].name == s2[i].name && groups_match(s3[i].groups, rem[u].processes);
                let i2 = choose|i2: int| 0 <= i2 < k.len() && k[i2].name == #[trigger] rem[u].name;
                assert(s2[i2] == k[i2]);
                assert(s2[i2].name == s2[i].name);
                assert(false);
            }
            assert(s3[i] == s2[i]);
        }
    }
    assert forall|j: int| 0 <= j < new.len() implies #[trigger] find_service(s3, new[j].name) is Some by {
        lemma_find_service_same_names(s2, s3, new[j].name);
    }
}


proof fn lemma_no_dups_split(a: Seq<Seq<char>>, b: Seq<Seq<char>>)
    requires
        no_dups(a + b),
    ensures
        no_dups(a),
        no_dups(b),
{
    let c = a + b;
    assert forall|i: int, j: int| 0 <= i < a.len() && 0 <= j < a.len() && i != j implies a[i] != a[j] by {
        assert(c[i] == a[i] && c[j] == a[j]);
    }
    assert forall|i: int, j: int| 0 <= i < b.len() && 0 <= j < b.len() && i != j implies b[i] != b[j] by {
        assert(c[i + a.len()] == b[i] && c[j + a.len()] == b[j]);
    }
}

proof fn lemma_process_names_distinct(ss: Seq<ServiceConfigView>)
    requires
        no_dups(process_names(ss)),
    ensures
        forall|i: int| 0 <= i < ss.len() ==> config_names_distinct(#[trigger] ss[i].processes),
    decreases ss.len(),
{
    if ss.len() > 0 {
        lemma_no_dups_split(process_names(ss.drop_last()), config_names(ss.last().processes));
        lemma_process_names_distinct(ss.drop_last());
        assert forall|i: int| 0 <= i < ss.len() implies config_names_distinct(#[trigger] ss[i].processes) by {
            if i < ss.len() - 1 {
                assert(ss[i] == ss.drop_last()[i]);
            } else {
                let cs = ss[i].processes;
                assert forall|a: int, b: int| 0 <= a < cs.len() && 0 <= b < cs.len() && a != b implies cs[a].name != cs[b].name by {
                    assert(config_names(cs)[a] == cs[a].name && config_names(cs)[b] == cs[b].name);
                }
            }
        }
    }
}

/// The services a configuration describes can be read in: services and the
/// programs of each are distinct.
pub proof fn lemma_config_distinct(ss: Seq<ServiceConfigView>)
    requires
        no_dups(service_names(ss)),
        no_dups(process_names(ss)),
    ensures
        service_configs_distinct(ss),
{
    lemma_process_names_distinct(ss);
    assert forall|i: int, j: int| 0 <= i < ss.len() && 0 <= j < ss.len() && i != j implies ss[i].name != ss[j].name by {
        assert(service_names(ss)[i] == ss[i].name && service_names(ss)[j] == ss[j].name);
    }
}

/// Reading a valid configuration text anew makes the supervisor run exactly
/// what it describes.
pub proof fn lemma_reread_follows_config_text(ss: Seq<ServiceView>, text: Seq<char>)
    requires
        services_wf(ss),
        config_text_of(text) is Ok,
    ensures
        services_match(tm_reread(ss, config_text_of(text)->Ok_0).0, config_text_of(text)->Ok_0),
        services_wf(tm_reread(ss, config_text_of(text)->Ok_0).0),
{
    lemma_config_text_unambiguous(text);
    lemma_config_distinct(config_text_of(text)->Ok_0);
    lemma_tm_reread_matches(ss, config_text_of(text)->Ok_0);
}

proof fn lemma_launch_services_shape(new: Seq<ServiceConfigView>, m: int)
    requires
        0 <= m <= new.len(),
        service_configs_distinct(new),
    ensures
        ({
            let s = launch_services(Seq::<ServiceView>::empty(), new.take(m)).0;
            &&& services_wf(s)
            &&& forall|i: int| 0 <= i < s.len() ==> launched_from(#[trigger] s[i], new, m)
            &&& forall|j: int| 0 <= j < m ==> #[trigger] find_service(s, new[j].name) is Some
            &&& forall|j: int| m <= j < new.len() ==> find_service(s, #[trigger] new[j].name) is None
        }),
    decreases m,
{
    let e = Seq::<ServiceView>::empty();
    let p = new.take(m);
    if m == 0 {
        assert(p =~= Seq::<ServiceConfigView>::empty());
        assert forall|j: int| m <= j < new.len() implies find_service(launch_services(e, p).0, #[trigger] new[j].name) is None by {
            assert(launch_services(e, p).0 == e);
        }
    } else {
        assert(p.drop_last() =~= new.take(m - 1));
        lemma_launch_services_shape(new, m - 1);
        let s1 = launch_services(e, new.take(m - 1)).0;
        let sc = p.last();
        assert(sc == new[m - 1]);
        assert(find_service(s1, sc.name) is None);
        let (gs, a) = launch_groups(sc.name, Seq::<GroupView>::empty(), sc.processes);
        let x = ServiceView { name: sc.name, groups: gs };
        let s2 = launch_services(e, p).0;
        assert(s2 == s1.push(x));
        assert(config_names_distinct(new[m - 1].processes));
        lemma_launch_groups_matches(sc.name, sc.processes, sc.processes.len() as int);
        assert(sc.processes.take(sc.processes.len() as int) =~= sc.processes);
        lemma_launch_groups_wf(sc.name, Seq::<GroupView>::empty(), sc.processes);
        lemma_find_service(s1, sc.name);
        lemma_push_fresh_service(s1, x);
        assert(launched_from(x, new, m));
        assert forall|i: int| 0 <= i < s2.len() implies launched_from(#[trigger] s2[i], new, m) by {
            if i < s1.len() {
                assert(s2[i] == s1[i]);
                assert(launched_from(s1[i], new, m - 1));
                let j = choose|j: int| 0 <= j < m - 1 && new[j].name == s1[i].name && groups_match(s1[i].groups, #[trigger] new[j].processes);
            }
        }
        assert forall|j: int| 0 <= j < m implies #[trigger] find_service(s2, new[j].name) is Some by {
            if j < m - 1 {
                lemma_find_service_push(s1, x, new[j].name);
            } else {
                lemma_find_service(s2, new[j].name);
                assert(s2[s2.len() - 1].name == new[j].name);
            }
        }
        assert forall|j: int| m <= j < new.len() implies find_service(s2, #[trigger] new[j].name) is None by {
            lemma_find_service(s1, new[j].name);
            lemma_find_service(s2, new[j].name);
            assert forall|i: int| 0 <= i < s2.len() implies s2[i].name != new[j].name by {
                if i < s1.len() {
                    assert(s2[i] == s1[i]);
                }
            }
        }
    }
}

/// Launching a configuration on a fresh supervisor runs exactly what it
/// describes.
pub proof fn lemma_launch_matches(new: Seq<ServiceConfigView>)
    requires
        service_configs_distinct(new),
    ensures
        services_match(launch_services(Seq::<ServiceView>::empty(), new).0, new),
        services_wf(launch_services(Seq::<ServiceView>::empty(), new).0),
{
    lemma_launch_services_shape(new, new.len() as int);
    assert(new.take(new.len() as int) =~= new);
    let s = launch_services(Seq::<ServiceView>::empty(), new).0;
    assert forall|i: int| 0 <= i < s.len() implies runs_service_config(#[trigger] s[i], new) by {
        assert(launched_from(s[i], new, new.len() as int));
        let j = choose|j: int| 0 <= j < new.len() && new[j].name == s[i].name && groups_match(s[i].groups, #[trigger] new[j].processes);
    }
}


proof fn lemma_services_wf_take(ss: Seq<ServiceView>, m: int)
    requires
        services_wf(ss),
        0 <= m <= ss.len(),
    ensures
        services_wf(ss.take(m)),
{
    let t = ss.take(m);
    assert forall|a: int, b: int| 0 <= a < t.len() && 0 <= b < t.len() && a != b implies t[a].name != t[b].name by {
        assert(t[a] == ss[a] && t[b] == ss[b]);
    }
    assert forall|a: int| 0 <= a < t.len() implies groups_wf(#[trigger] t[a].groups) by {
        assert(t[a] == ss[a]);
    }
}

proof fn lemma_services_wf_remove(ss: Seq<ServiceView>, i: int)
    requires
        services_wf(ss),
        0 <= i < ss.len(),
    ensures
        services_wf(ss.remove(i)),
{
    let t = ss.remove(i);
    assert forall|a: int, b: int| 0 <= a < t.len() && 0 <= b < t.len() && a != b implies t[a].name != t[b].name by {
        let a2 = if a < i { a } else { a + 1 };
        let b2 = if b < i { b } else { b + 1 };
        assert(t[a] == ss[a2] && t[b] == ss[b2]);
    }
    assert forall|a: int| 0 <= a < t.len() implies groups_wf(#[trigger] t[a].groups) by {
        let a2 = if a < i { a } else { a + 1 };
        assert(t[a] == ss[a2]);
    }
}

pub(crate) proof fn lemma_launch_service_wf(ss: Seq<ServiceView>, sc: ServiceConfigView)
    requires
        services_wf(ss),
    ensures
        services_wf(launch_service(ss, sc).0),
{
    lemma_launch_groups_wf(sc.name, Seq::<GroupView>::empty(), sc.processes);
    let (gs, a) = launch_groups(sc.name, Seq::<GroupView>::empty(), sc.processes);
    let sv = ServiceView { name: sc.name, groups: gs };
    lemma_find_service(ss, sc.name);
    match find_service(ss, sc.name) {
        Some(i) => lemma_update_service(ss, i, sv),
        None => lemma_push_fresh_service(ss, sv),
    }
}


/// Program `p` of service `s` runs and can stay as it runs: the configuration
/// still holds it, with no fatal difference.
pub open spec fn keeps(ss: Seq<ServiceView>, new: Seq<ServiceConfigView>, s: Seq<char>, p: Seq<char>) -> bool {
    exists|i: int, j: int, k: int|
        #![trigger ss[i].groups[j], new[k]]
        0 <= i < ss.len() && 0 <= k < new.len() && 0 <= j < ss[i].groups.len() && ss[i].name == s && new[k].name == s
            && ss[i].groups[j].config.name == p && kept_group(ss[i].groups[j], new[k].processes)
}

/// The action stops no group that can stay.
pub open spec fn removal_justified(ss: Seq<ServiceView>, new: Seq<ServiceConfigView>, a: ActionView) -> bool {
    match a {
        ActionView::RemoveGroup(s, p) => !keeps(ss, new, s, p),
        _ => true,
    }
}

proof fn lemma_drop_gone_removals(ss: Seq<ServiceView>, new: Seq<ServiceConfigView>)
    ensures
        forall|t: int| 0 <= t < drop_gone(ss, new).1.len() ==> (#[trigger] drop_gone(ss, new).1[t] matches ActionView::RemoveGroup(s, p)
            ==> !sc_names(new).contains(s)),
        forall|t: int| 0 <= t < drop_gone(ss, new).1.len() ==> drop_gone(ss, new).1[t] is RemoveGroup,
    decreases ss.len(),
{
    if ss.len() > 0 {
        lemma_drop_gone_removals(ss.drop_last(), new);
        let (k, a) = drop_gone(ss.drop_last(), new);
        let last = ss.last();
        let acts = drop_gone(ss, new).1;
        if !sc_names(new).contains(last.name) {
            let r = remove_all(last);
            assert(acts == a + r);
            assert forall|t: int| 0 <= t < acts.len() implies (#[trigger] acts[t] matches ActionView::RemoveGroup(s, p)
                ==> !sc_names(new).contains(s)) && acts[t] is RemoveGroup by {
                if t < a.len() {
                    assert(acts[t] == a[t]);
                } else {
                    assert(acts[t] == r[t - a.len()]);
                }
            }
        }
    }
}

proof fn lemma_add_services_no_removal(k: Seq<ServiceView>, new: Seq<ServiceConfigView>)
    requires
        service_configs_distinct(new),
    ensures
        forall|t: int| 0 <= t < add_services(k, new).1.len() ==> !(#[trigger] add_services(k, new).1[t] is RemoveGroup),
    decreases new.len(),
{
    if new.len() > 0 {
        let pre = new.drop_last();
        assert(service_configs_distinct(pre)) by {
            assert forall|i: int| 0 <= i < pre.len() implies config_names_distinct(#[trigger] pre[i].processes) by {
                assert(pre[i] == new[i]);
            }
        }
        lemma_add_services_no_removal(k, pre);
        let (s1, a1, r1) = add_services(k, pre);
        let sc = new.last();
        let acts = add_services(k, new).1;
        if find_service(s1, sc.name) is None {
            assert(config_names_distinct(new[new.len() - 1].processes));
            lemma_launch_groups_no_removal(sc.name, sc.processes, sc.processes.len() as int);
            assert(sc.processes.take(sc.processes.len() as int) =~= sc.processes);
            let a = launch_groups(sc.name, Seq::<GroupView>::empty(), sc.processes).1;
            assert(acts == a1 + a);
            assert forall|t: int| 0 <= t < acts.len() implies !(#[trigger] acts[t] is RemoveGroup) by {
                if t < a1.len() {
                    assert(acts[t] == a1[t]);
                } else {
                    assert(acts[t] == a[t - a1.len()]);
                }
            }
        }
    }
}

/// Every group stopped while reading the remaining services anew, up to `t`
/// of them, is a group of one of those services that cannot stay.
proof fn lemma_update_services_removals(s2: Seq<ServiceView>, rem: Seq<ServiceConfigView>, t: int)
    requires
        0 <= t <= rem.len(),
        services_wf(s2),
        forall|u: int, v: int| 0 <= u < rem.len() && 0 <= v < rem.len() && u != v ==> rem[u].name != rem[v].name,
        forall|u: int| 0 <= u < rem.len() ==> config_names_distinct(#[trigger] rem[u].processes),
    ensures
        forall|q: int| 0 <= q < update_services(s2, rem.take(t)).1.len() ==> (#[trigger] update_services(s2, rem.take(t)).1[q] matches ActionView::RemoveGroup(s, p) ==> exists|u: int, i: int, j: int|
            #![trigger rem[u], s2[i].groups[j]]
            0 <= u < t && 0 <= i < s2.len() && 0 <= j < s2[i].groups.len() && rem[u].name == s && s2[i].name == s
                && s2[i].groups[j].config.name == p && !kept_group(s2[i].groups[j], rem[u].processes)),
    decreases t,
{
    let pt = rem.take(t);
    if t == 0 {
        assert(pt =~= Seq::<ServiceConfigView>::empty());
    } else {
        assert(pt.drop_last() =~= rem.take(t - 1));
        lemma_update_services_removals(s2, rem, t - 1);
        lemma_update_services_shape(s2, rem, t - 1);
        let (s1, a1) = update_services(s2, rem.take(t - 1));
        let sc = pt.last();
        assert(sc == rem[t - 1]);
        let acts = update_services(s2, pt).1;
        lemma_find_service(s1, sc.name);
        match find_service(s1, sc.name) {
            Some(i0) => {
                let (g, a, r) = service_reread(s1[i0].name, s1[i0].groups, sc.processes);
                assert(acts == a1 + a);
                // the service was not read anew before: names of `rem` are distinct
                assert(s1[i0].name == s2[i0].name);
                if s1[i0] != s2[i0] {
                    let u = choose|u: int| #![trigger rem[u]] 0 <= u < t - 1 && rem[u].name == s2[i0].name && groups_match(s1[i0].groups, rem[u].processes);
                    assert(rem[u].name == rem[t - 1].name);
                    assert(false);
                }
                lemma_service_reread_removals(s1[i0].name, s1[i0].groups, sc.processes);
                assert forall|q: int| 0 <= q < acts.len() implies (#[trigger] acts[q] matches ActionView::RemoveGroup(s, p) ==> exists|u: int, i: int, j: int|
                    #![trigger rem[u], s2[i].groups[j]]
                    0 <= u < t && 0 <= i < s2.len() && 0 <= j < s2[i].groups.len() && rem[u].name == s && s2[i].name == s
                        && s2[i].groups[j].config.name == p && !kept_group(s2[i].groups[j], rem[u].processes)) by {
                    if q < a1.len() {
                        assert(acts[q] == a1[q]);
                        if let ActionView::RemoveGroup(s, p) = a1[q] {
                            let (u, i, j) = choose|u: int, i: int, j: int|
                                #![trigger rem[u], s2[i].groups[j]]
                                0 <= u < t - 1 && 0 <= i < s2.len() && 0 <= j < s2[i].groups.len() && rem[u].name == s && s2[i].name == s
                                    && s2[i].groups[j].config.name == p && !kept_group(s2[i].groups[j], rem[u].processes);
                        }
                    } else {
                        assert(acts[q] == a[q - a1.len()]);
                        if let ActionView::RemoveGroup(s, p) = a[q - a1.len()] {
                            let j = choose|j: int| 0 <= j < s1[i0].groups.len() && s1[i0].groups[j].config.name == p && !kept_group(s1[i0].groups[j], sc.processes);
                            assert(s2[i0].groups[j] == s1[i0].groups[j]);
                            assert(rem[t - 1] == sc);
                        }
                    }
                }
            },
            None => {
                assert(acts == a1);
                assert forall|q: int| 0 <= q < acts.len() implies (#[trigger] acts[q] matches ActionView::RemoveGroup(s, p) ==> exists|u: int, i: int, j: int|
                    #![trigger rem[u], s2[i].groups[j]]
                    0 <= u < t && 0 <= i < s2.len() && 0 <= j < s2[i].groups.len() && rem[u].name == s && s2[i].name == s
                        && s2[i].groups[j].config.name == p && !kept_group(s2[i].groups[j], rem[u].processes)) by {
                    if let ActionView::RemoveGroup(s, p) = a1[q] {
                        let (u, i, j) = choose|u: int, i: int, j: int|
                            #![trigger rem[u], s2[i].groups[j]]
                            0 <= u < t - 1 && 0 <= i < s2.len() && 0 <= j < s2[i].groups.len() && rem[u].name == s && s2[i].name == s
                                && s2[i].groups[j].config.name == p && !kept_group(s2[i].groups[j], rem[u].processes);
                    }
                }
            },
        }
    }
}

/// Reading the configuration anew stops only what must stop: services no
/// longer configured, programs no longer configured, and programs whose
/// configuration changed fatally. A program whose configuration changed
/// otherwise keeps running.
pub proof fn lemma_tm_reread_removals(ss: Seq<ServiceView>, new: Seq<ServiceConfigView>)
    requires
        services_wf(ss),
        service_configs_distinct(new),
    ensures
        forall|t: int| 0 <= t < tm_reread(ss, new).1.len() ==> removal_justified(ss, new, #[trigger] tm_reread(ss, new).1[t]),
{
    lemma_drop_gone_wf(ss, new);
    lemma_drop_gone_removals(ss, new);
    let (k, a1) = drop_gone(ss, new);
    lemma_add_services_wf(k, new);
    lemma_add_services_no_removal(k, new);
    lemma_add_services_shape(k, new, new.len() as int);
    assert(new.take(new.len() as int) =~= new);
    let (s2, a2, rem) = add_services(k, new);
    assert forall|u: int| 0 <= u < rem.len() implies config_names_distinct(#[trigger] rem[u].processes) by {
        let j = choose|j: int| 0 <= j < new.len() && #[trigger] rem[u] == new[j];
    }
    lemma_update_services_removals(s2, rem, rem.len() as int);
    assert(rem.take(rem.len() as int) =~= rem);
    let a3 = update_services(s2, rem).1;
    let acts = tm_reread(ss, new).1;
    assert(acts == a1 + a2 + a3);
    assert forall|t: int| 0 <= t < acts.len() implies removal_justified(ss, new, #[trigger] acts[t]) by {
        if t < a1.len() {
            assert(acts[t] == a1[t]);
            if let ActionView::RemoveGroup(s, p) = a1[t] {
                if keeps(ss, new, s, p) {
                    let (i, j, kk) = choose|i: int, j: int, kk: int|
                        #![trigger ss[i].groups[j], new[kk]]
                        0 <= i < ss.len() && 0 <= kk < new.len() && 0 <= j < ss[i].groups.len() && ss[i].name == s && new[kk].name == s
                            && ss[i].groups[j].config.name == p && kept_group(ss[i].groups[j], new[kk].processes);
                    assert(sc_names(new)[kk] == s);
                }
            }
        } else if t < a1.len() + a2.len() {
            assert(acts[t] == a2[t - a1.len()]);
        } else {
            let q = t - a1.len() - a2.len();
            assert(acts[t] == a3[q]);
            if let ActionView::RemoveGroup(s, p) = a3[q] {
                let (u, i, j) = choose|u: int, i: int, j: int|
                    #![trigger rem[u], s2[i].groups[j]]
                    0 <= u < rem.len() && 0 <= i < s2.len() && 0 <= j < s2[i].groups.len() && rem[u].name == s && s2[i].name == s
                        && s2[i].groups[j].config.name == p && !kept_group(s2[i].groups[j], rem[u].processes);
                // the service is an old one
                if i >= k.len() {
                    assert(s2[i].name != rem[u].name);
                }
                assert(s2[i] == k[i]);
                let i1 = choose|i1: int| 0 <= i1 < ss.len() && #[trigger] drop_gone(ss, new).0[i] == ss[i1];
                let k1 = choose|k1: int| 0 <= k1 < new.len() && #[trigger] rem[u] == new[k1];
                if keeps(ss, new, s, p) {
                    let (i2, j2, k2) = choose|i2: int, j2: int, k2: int|
                        #![trigger ss[i2].groups[j2], new[k2]]
                        0 <= i2 < ss.len() && 0 <= k2 < new.len() && 0 <= j2 < ss[i2].groups.len() && ss[i2].name == s && new[k2].name == s
                            && ss[i2].groups[j2].config.name == p && kept_group(ss[i2].groups[j2], new[k2].processes);
                    assert(i2 == i1);
                    assert(k2 == k1);
                    assert(groups_wf(ss[i1].groups));
                    assert(j2 == j);
                    assert(false);
                }
            }
        }
    }
}

proof fn lemma_drop_gone_keeps_all(ss: Seq<ServiceView>, new: Seq<ServiceConfigView>)
    requires
        forall|i: int| 0 <= i < ss.len() ==> sc_names(new).contains(#[trigger] ss[i].name),
    ensures
        drop_gone(ss, new).0 == ss,
        drop_gone(ss, new).1 == Seq::<ActionView>::empty(),
    decreases ss.len(),
{
    if ss.len() > 0 {
        let pre = ss.drop_last();
        assert forall|i: int| 0 <= i < pre.len() implies sc_names(new).contains(#[trigger] pre[i].name) by {
            assert(pre[i] == ss[i]);
        }
        lemma_drop_gone_keeps_all(pre, new);
        assert(sc_names(new).contains(ss[ss.len() - 1].name));
        assert(pre.push(ss.last()) =~= ss);
    }
}

proof fn lemma_add_services_none(ss: Seq<ServiceView>, ns: Seq<ServiceConfigView>)
    requires
        forall|k: int| 0 <= k < ns.len() ==> #[trigger] find_service(ss, ns[k].name) is Some,
    ensures
        add_services(ss, ns).0 == ss,
        add_services(ss, ns).1 == Seq::<ActionView>::empty(),
        add_services(ss, ns).2 == ns,
    decreases ns.len(),
{
    if ns.len() > 0 {
        let pre = ns.drop_last();
        assert forall|k: int| 0 <= k < pre.len() implies #[trigger] find_service(ss, pre[k].name) is Some by {
            assert(pre[k] == ns[k]);
        }
        lemma_add_services_none(ss, pre);
        assert(find_service(ss, ns[ns.len() - 1].name) is Some);
        assert(pre.push(ns.last()) =~= ns);
    }
}

proof fn lemma_update_services_unchanged(ss: Seq<ServiceView>, rem: Seq<ServiceConfigView>)
    requires
        services_wf(ss),
        forall|u: int| 0 <= u < rem.len() ==> (find_service(ss, #[trigger] rem[u].name) matches Some(i) && groups_match(
            ss[i].groups,
            rem[u].processes,
        )),
    ensures
        update_services(ss, rem).0 == ss,
        forall|t: int| 0 <= t < update_services(ss, rem).1.len() ==> #[trigger] update_services(ss, rem).1[t] is Reread,
    decreases rem.len(),
{
    if rem.len() > 0 {
        let pre = rem.drop_last();
        assert forall|u: int| 0 <= u < pre.len() implies (find_service(ss, #[trigger] pre[u].name) matches Some(i)
            && groups_match(ss[i].groups, pre[u].processes)) by {
            assert(pre[u] == rem[u]);
        }
        lemma_update_services_unchanged(ss, pre);
        let (s1, a1) = update_services(ss, pre);
        let sc = rem.last();
        assert(sc == rem[rem.len() - 1]);
        let i = find_service(ss, sc.name)->Some_0;
        lemma_find_service(ss, sc.name);
        assert(groups_wf(ss[i].groups));
        lemma_service_reread_unchanged(ss[i].name, ss[i].groups, sc.processes);
        let (g, a, r) = service_reread(ss[i].name, ss[i].groups, sc.processes);
        assert(ss.update(i, ServiceView { name: ss[i].name, groups: g }) =~= ss);
        let all = update_services(ss, rem).1;
        assert(all == a1 + a);
        assert forall|t: int| 0 <= t < all.len() implies #[trigger] all[t] is Reread by {
            if t < a1.len() {
                assert(all[t] == a1[t]);
            } else {
                assert(all[t] == a[t - a1.len()]);
            }
        }
    }
}

/// Reading anew the configuration that the supervisor already runs changes
/// nothing: no process is started or stopped, the table stays as it is, and
/// the threads are only handed their configuration again.
pub proof fn lemma_reread_unchanged(ss: Seq<ServiceView>, new: Seq<ServiceConfigView>)
    requires
        services_wf(ss),
        service_configs_distinct(new),
        services_match(ss, new),
    ensures
        tm_reread(ss, new).0 == ss,
        forall|t: int| 0 <= t < tm_reread(ss, new).1.len() ==> #[trigger] tm_reread(ss, new).1[t] is Reread,
{
    assert forall|i: int| 0 <= i < ss.len() implies sc_names(new).contains(#[trigger] ss[i].name) by {
        assert(runs_service_config(ss[i], new));
        let j = choose|j: int| 0 <= j < new.len() && new[j].name == ss[i].name && groups_match(ss[i].groups, #[trigger] new[j].processes);
        assert(sc_names(new)[j] == ss[i].name);
    }
    lemma_drop_gone_keeps_all(ss, new);
    assert forall|k: int| 0 <= k < new.len() implies #[trigger] find_service(ss, new[k].name) is Some by {
        assert(find_service(ss, new[k].name) is Some);
    }
    lemma_add_services_none(ss, new);
    assert forall|u: int| 0 <= u < new.len() implies (find_service(ss, #[trigger] new[u].name) matches Some(i) && groups_match(
        ss[i].groups,
        new[u].processes,
    )) by {
        lemma_find_service(ss, new[u].name);
        let i = find_service(ss, new[u].name)->Some_0;
        assert(runs_service_config(ss[i], new));
        let j = choose|j: int| 0 <= j < new.len() && new[j].name == ss[i].name && groups_match(ss[i].groups, #[trigger] new[j].processes);
        if j != u {
            assert(new[j].name != new[u].name);
        }
    }
    lemma_update_services_unchanged(ss, new);
    let acts = tm_reread(ss, new).1;
    assert(acts =~= update_services(ss, new).1);
}

/// Reading the same configuration twice: the second reading starts and stops
/// no process and leaves the table as the first left it; it only hands the
/// threads their configuration again.
pub proof fn lemma_reread_twice(ss: Seq<ServiceView>, new: Seq<ServiceConfigView>)
    requires
        services_wf(ss),
        service_configs_distinct(new),
    ensures
        tm_reread(tm_reread(ss, new).0, new).0 == tm_reread(ss, new).0,
        forall|t: int| 0 <= t < tm_reread(tm_reread(ss, new).0, new).1.len() ==> #[trigger] tm_reread(
            tm_reread(ss, new).0,
            new,
        ).1[t] is Reread,
{
    lemma_tm_reread_matches(ss, new);
    lemma_reread_unchanged(tm_reread(ss, new).0, new);
}

} // verus!
