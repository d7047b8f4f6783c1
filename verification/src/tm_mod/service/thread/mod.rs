//! A group of threads that all run one program, one process each. The
//! threads themselves live with the daemon; here a group is its configuration
//! and how many threads it has, thread `i` being the `i`-th started.
pub mod process;

use vstd::prelude::*;
use crate::tm_mod::config::{Config, ConfigView};
use crate::tm_mod::exec_error::{ExecError, ExecErrorView};

verus! {

#[derive(Debug)]
pub struct ThreadVec {
    pub config: Config,
    pub nb_threads: usize,
}

pub struct GroupView {
    pub config: ConfigView,
    pub nb_threads: nat,
}

impl View for ThreadVec {
    type V = GroupView;

    open spec fn view(&self) -> GroupView {
        GroupView { config: self.config@, nb_threads: self.nb_threads as nat }
    }
}

impl DeepView for ThreadVec {
    type V = GroupView;

    open spec fn deep_view(&self) -> GroupView {
        self@
    }
}

/// What the daemon does to its threads.
#[derive(Debug)]
pub enum ThreadAction {
    /// Start one more thread for the program, last in its group, running `config`.
    Spawn { service: String, process: String, config: Config },
    /// Stop the last thread of the program's group and forget it.
    Pop { service: String, process: String },
    /// Stop every thread of the program's group and forget the group.
    RemoveGroup { service: String, process: String },
    /// Hand `config` to every thread of the program's group.
    Reread { service: String, process: String, config: Config },
}

pub enum ActionView {
    Spawn(Seq<char>, Seq<char>, ConfigView),
    Pop(Seq<char>, Seq<char>),
    RemoveGroup(Seq<char>, Seq<char>),
    Reread(Seq<char>, Seq<char>, ConfigView),
}

impl View for ThreadAction {
    type V = ActionView;

    open spec fn view(&self) -> ActionView {
        match self {
            ThreadAction::Spawn { service, process, config } => ActionView::Spawn(service@, process@, config@),
            ThreadAction::Pop { service, process } => ActionView::Pop(service@, process@),
            ThreadAction::RemoveGroup { service, process } => ActionView::RemoveGroup(service@, process@),
            ThreadAction::Reread { service, process, config } => ActionView::Reread(service@, process@, config@),
        }
    }
}

impl DeepView for ThreadAction {
    type V = ActionView;

    open spec fn deep_view(&self) -> ActionView {
        self@
    }
}

/// Where an instruction goes: to one thread, or nowhere, with the reason.
#[derive(Debug)]
pub enum Step {
    Send { service: String, process: String, thread: usize },
    Fail(ExecError),
}

pub enum StepView {
    Send(Seq<char>, Seq<char>, usize),
    Fail(ExecErrorView),
}

impl View for Step {
    type V = StepView;

    open spec fn view(&self) -> StepView {
        match self {
            Step::Send { service, process, thread } => StepView::Send(service@, process@, *thread),
            Step::Fail(e) => StepView::Fail(e@),
        }
    }
}

impl DeepView for Step {
    type V = StepView;

    open spec fn deep_view(&self) -> StepView {
        self@
    }
}

/// `n` spawns of `config` for program `p` of service `s`.
pub open spec fn spawns(s: Seq<char>, p: Seq<char>, c: ConfigView, n: nat) -> Seq<ActionView> {
    Seq::new(n, |i: int| ActionView::Spawn(s, p, c))
}

/// `n` pops of the last thread of program `p` of service `s`.
pub open spec fn pops(s: Seq<char>, p: Seq<char>, n: nat) -> Seq<ActionView> {
    Seq::new(n, |i: int| ActionView::Pop(s, p))
}

/// Where an instruction for the group of service `s` goes: to thread `id`
/// when one is named and exists, to every thread in order when none is named.
pub open spec fn group_steps(s: Seq<char>, g: GroupView, thread_id: Option<usize>) -> Seq<StepView> {
    match thread_id {
        Some(id) => if id < g.nb_threads {
            seq![StepView::Send(s, g.config.name, id)]
        } else {
            seq![StepView::Fail(ExecErrorView::ThreadOutofRange(g.config.name, id))]
        },
        None => Seq::new(g.nb_threads, |i: int| StepView::Send(s, g.config.name, i as usize)),
    }
}

pub fn push_spawns(acts: &mut Vec<ThreadAction>, s: &String, config: &Config, n: usize)
    ensures
        final(acts).deep_view() == old(acts).deep_view() + spawns(s@, config@.name, config@, n as nat),
{
    let ghost start = acts.deep_view();
    let mut i: usize = 0;
    while i < n
        invariant
            i <= n,
            acts.deep_view() == start + spawns(s@, config@.name, config@, i as nat),
        decreases n - i,
    {
        let ghost b = acts.deep_view();
        let a = ThreadAction::Spawn { service: s.clone(), process: config.name.clone(), config: config.clone() };
        acts.push(a);
        proof {
            assert(acts.deep_view() =~= b.push(a@));
            assert(spawns(s@, config@.name, config@, (i + 1) as nat) =~= spawns(s@, config@.name, config@, i as nat).push(a@));
        }
        i = i + 1;
    }
}

pub fn push_pops(acts: &mut Vec<ThreadAction>, s: &String, p: &String, n: usize)
    ensures
        final(acts).deep_view() == old(acts).deep_view() + pops(s@, p@, n as nat),
{
    let ghost start = acts.deep_view();
    let mut i: usize = 0;
    while i < n
        invariant
            i <= n,
            acts.deep_view() == start + pops(s@, p@, i as nat),
        decreases n - i,
    {
        let ghost b = acts.deep_view();
        let a = ThreadAction::Pop { service: s.clone(), process: p.clone() };
        acts.push(a);
        proof {
            assert(acts.deep_view() =~= b.push(a@));
            assert(pops(s@, p@, (i + 1) as nat) =~= pops(s@, p@, i as nat).push(a@));
        }
        i = i + 1;
    }
}

impl ThreadVec {
    /// A group of `config.numprocs` threads running `config`; the actions
    /// start them.
    pub fn new(service: &String, config: &Config, acts: &mut Vec<ThreadAction>) -> (t: ThreadVec)
        ensures
            t@ == (GroupView { config: config@, nb_threads: config@.numprocs as nat }),
            final(acts).deep_view() == old(acts).deep_view() + spawns(service@, config@.name, config@, config@.numprocs as nat),
    {
        push_spawns(acts, service, config, config.numprocs);
        ThreadVec { config: config.clone(), nb_threads: config.numprocs }
    }

    /// Where an instruction goes in this group of service `service`.
    pub fn send(&self, service: &String, thread_id: Option<usize>, steps: &mut Vec<Step>)
        ensures
            final(steps).deep_view() == old(steps).deep_view() + group_steps(service@, self@, thread_id),
    {
        let ghost start = steps.deep_view();
        match thread_id {
            Some(id) => {
                if id < self.nb_threads {
                    let st = Step::Send { service: service.clone(), process: self.config.name.clone(), thread: id };
                    steps.push(st);
                    proof {
                        assert(steps.deep_view() =~= start + seq![st@]);
                    }
                } else {
                    let st = Step::Fail(ExecError::ThreadOutofRange((self.config.name.clone(), id)));
                    steps.push(st);
                    proof {
                        assert(steps.deep_view() =~= start + seq![st@]);
                    }
                }
            },
            None => {
                let n = self.nb_threads;
                let mut i: usize = 0;
                while i < n
                    invariant
                        n == self.nb_threads,
                        i <= n,
                        steps.deep_view() == start + Seq::new(i as nat, |k: int| StepView::Send(service@, self@.config.name, k as usize)),
                    decreases n - i,
                {
                    let ghost b = steps.deep_view();
                    let st = Step::Send { service: service.clone(), process: self.config.name.clone(), thread: i };
                    steps.push(st);
                    proof {
                        assert(steps.deep_view() =~= b.push(st@));
                        assert(Seq::new((i + 1) as nat, |k: int| StepView::Send(service@, self@.config.name, k as usize))
                            =~= Seq::new(i as nat, |k: int| StepView::Send(service@, self@.config.name, k as usize)).push(st@));
                    }
                    i = i + 1;
                }
            },
        }
    }
}

} // verus!
