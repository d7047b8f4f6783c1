//! A service: programs bundled together under one name, each program run by
//! its group of threads.
pub mod thread;

use vstd::prelude::*;
use crate::text::same_text;
use crate::tm_mod::config::{Config, ConfigView, fatal_diff};
use crate::tm_mod::exec_error::{ExecError, ExecErrorView};
use self::thread::{ThreadVec, GroupView, ThreadAction, ActionView, Step, StepView, group_steps, spawns, pops, push_spawns, push_pops};

verus! {

#[derive(Debug)]
pub struct Service {
    pub name: String,
    pub thread_hash: Vec<ThreadVec>,
}

pub struct ServiceView {
    pub name: Seq<char>,
    pub groups: Seq<GroupView>,
}

impl View for Service {
    type V = ServiceView;

    open spec fn view(&self) -> ServiceView {
        ServiceView { name: self.name@, groups: self.thread_hash.deep_view() }
    }
}

impl DeepView for Service {
    type V = ServiceView;

    open spec fn deep_view(&self) -> ServiceView {
        self@
    }
}

pub open spec fn group_names(gs: Seq<GroupView>) -> Seq<Seq<char>> {
    gs.map_values(|g: GroupView| g.config.name)
}

/// Groups are keyed by their program's name, and each has as many threads as
/// its configuration asks for.
pub open spec fn groups_wf(gs: Seq<GroupView>) -> bool {
    &&& forall|i: int, j: int| 0 <= i < gs.len() && 0 <= j < gs.len() && i != j ==> gs[i].config.name != gs[j].config.name
    &&& forall|i: int| 0 <= i < gs.len() ==> (#[trigger] gs[i]).nb_threads == gs[i].config.numprocs
}

/// The first group of program `p`.
pub open spec fn find_group(gs: Seq<GroupView>, p: Seq<char>) -> Option<int>
    decreases gs.len(),
{
    if gs.len() == 0 {
        None
    } else if gs[0].config.name == p {
        Some(0)
    } else {
        match find_group(gs.drop_first(), p) {
            Some(i) => Some(i + 1),
            None => None,
        }
    }
}

/// Where an instruction for program `p` of service `s` goes.
pub open spec fn process_steps(s: ServiceView, p: Seq<char>, thread_id: Option<usize>) -> Seq<StepView> {
    match find_group(s.groups, p) {
        Some(i) => group_steps(s.name, s.groups[i], thread_id),
        None => seq![StepView::Fail(ExecErrorView::ProcessName(p))],
    }
}

/// Where an instruction for every program of service `s` goes: every thread
/// of every group, group after group.
pub open spec fn all_steps(sname: Seq<char>, gs: Seq<GroupView>) -> Seq<StepView>
    decreases gs.len(),
{
    if gs.len() == 0 {
        Seq::<StepView>::empty()
    } else {
        all_steps(sname, gs.drop_last()) + group_steps(sname, gs.last(), None)
    }
}

pub proof fn lemma_find_group(gs: Seq<GroupView>, p: Seq<char>)
    ensures
        match find_group(gs, p) {
            Some(i) => 0 <= i < gs.len() && gs[i].config.name == p && forall|j: int| 0 <= j < i ==> gs[j].config.name != p,
            None => forall|j: int| 0 <= j < gs.len() ==> gs[j].config.name != p,
        },
    decreases gs.len(),
{
    if gs.len() > 0 {
        lemma_find_group(gs.drop_first(), p);
        if gs[0].config.name != p {
            match find_group(gs.drop_first(), p) {
                Some(i) => {
                    assert forall|j: int| 0 <= j < i + 1 implies gs[j].config.name != p by {
                        if j > 0 {
                            assert(gs[j] == gs.drop_first()[j - 1]);
                        }
                    }
                },
                None => {
                    assert forall|j: int| 0 <= j < gs.len() implies gs[j].config.name != p by {
                        if j > 0 {
                            assert(gs[j] == gs.drop_first()[j - 1]);
                        }
                    }
                },
            }
        }
    }
}

impl Service {
    pub fn new(name: String) -> (s: Service)
        ensures
            s@ == (ServiceView { name: name@, groups: Seq::<GroupView>::empty() }),
    {
        let s = Service { name, thread_hash: Vec::new() };
        proof {
            assert(s.thread_hash.deep_view() =~= Seq::<GroupView>::empty());
        }
        s
    }

    /// The position of the group of program `p`.
    pub fn position(&self, p: &str) -> (r: Option<usize>)
        ensures
            match r {
                Some(i) => find_group(self@.groups, p@) == Some(i as int),
                None => find_group(self@.groups, p@) is None,
            },
    {
        let n = self.thread_hash.len();
        let mut i: usize = 0;
        proof {
            lemma_find_group(self@.groups, p@);
        }
        while i < n
            invariant
                n == self.thread_hash.len(),
                i <= n,
                forall|j: int| 0 <= j < i ==> self@.groups[j].config.name != p@,
            decreases n - i,
        {
            if same_text(self.thread_hash[i].config.name.as_str(), p) {
                proof {
                    lemma_find_group(self@.groups, p@);
                    assert(self@.groups[i as int].config.name == p@);
                }
                return Some(i);
            }
            i = i + 1;
        }
        None
    }

    pub fn contains_process(&self, p_name: &str) -> (r: bool)
        ensures
            r == (find_group(self@.groups, p_name@) is Some),
    {
        self.position(p_name).is_some()
    }

    /// Where an instruction for program `p_name` of this service goes.
    pub fn send_to_process(&self, p_name: &str, thread_id: Option<usize>, steps: &mut Vec<Step>)
        ensures
            final(steps).deep_view() == old(steps).deep_view() + process_steps(self@, p_name@, thread_id),
    {
        proof {
            lemma_find_group(self@.groups, p_name@);
        }
        match self.position(p_name) {
            Some(i) => {
                proof {
                    assert(self@.groups[i as int] == self.thread_hash[i as int]@);
                }
                self.thread_hash[i].send(&self.name, thread_id, steps);
            },
            None => {
                let ghost start = steps.deep_view();
                let st = Step::Fail(ExecError::ProcessName(p_name.to_owned()));
                steps.push(st);
                proof {
                    assert(steps.deep_view() =~= start + seq![st@]);
                }
            },
        }
    }

    /// Where an instruction for every program of this service goes.
    pub fn send_to_all_process(&self, steps: &mut Vec<Step>)
        ensures
            final(steps).deep_view() == old(steps).deep_view() + all_steps(self@.name, self@.groups),
    {
        let ghost start = steps.deep_view();
        let n = self.thread_hash.len();
        let mut i: usize = 0;
        proof {
            assert(self@.groups.take(0) =~= Seq::<GroupView>::empty());
            assert(steps.deep_view() =~= start + all_steps(self@.name, self@.groups.take(0)));
        }
        while i < n
            invariant
                n == self.thread_hash.len(),
                i <= n,
                steps.deep_view() == start + all_steps(self@.name, self@.groups.take(i as int)),
            decreases n - i,
        {
            proof {
                assert(self@.groups.take(i + 1).drop_last() =~= self@.groups.take(i as int));
                assert(self@.groups.take(i + 1).last() == self.thread_hash[i as int]@);
            }
            self.thread_hash[i].send(&self.name, None, steps);
            proof {
                assert(steps.deep_view() =~= start + all_steps(self@.name, self@.groups.take(i + 1)));
            }
            i = i + 1;
        }
        proof {
            assert(self@.groups.take(n as int) =~= self@.groups);
        }
    }
}


/// The first configuration of program `p`.
pub open spec fn find_config(cs: Seq<ConfigView>, p: Seq<char>) -> Option<int>
    decreases cs.len(),
{
    if cs.len() == 0 {
        None
    } else if cs[0].name == p {
        Some(0)
    } else {
        match find_config(cs.drop_first(), p) {
            Some(i) => Some(i + 1),
            None => None,
        }
    }
}

pub proof fn lemma_find_config(cs: Seq<ConfigView>, p: Seq<char>)
    ensures
        match find_config(cs, p) {
            Some(i) => 0 <= i < cs.len() && cs[i].name == p && forall|j: int| 0 <= j < i ==> cs[j].name != p,
            None => forall|j: int| 0 <= j < cs.len() ==> cs[j].name != p,
        },
    decreases cs.len(),
{
    if cs.len() > 0 {
        lemma_find_config(cs.drop_first(), p);
        if cs[0].name != p {
            match find_config(cs.drop_first(), p) {
                Some(i) => {
                    assert forall|j: int| 0 <= j < i + 1 implies cs[j].name != p by {
                        if j > 0 {
                            assert(cs[j] == cs.drop_first()[j - 1]);
                        }
                    }
                },
                None => {
                    assert forall|j: int| 0 <= j < cs.len() implies cs[j].name != p by {
                        if j > 0 {
                            assert(cs[j] == cs.drop_first()[j - 1]);
                        }
                    }
                },
            }
        }
    }
}

pub fn config_position(cs: &Vec<Config>, p: &str) -> (r: Option<usize>)
    ensures
        match r {
            Some(i) => find_config(cs.deep_view(), p@) == Some(i as int),
            None => find_config(cs.deep_view(), p@) is None,
        },
{
    let n = cs.len();
    let mut i: usize = 0;
    proof {
        lemma_find_config(cs.deep_view(), p@);
    }
    while i < n
        invariant
            n == cs.len(),
            i <= n,
            forall|j: int| 0 <= j < i ==> cs.deep_view()[j].name != p@,
        decreases n - i,
    {
        if same_text(cs[i].name.as_str(), p) {
            proof {
                lemma_find_config(cs.deep_view(), p@);
                assert(cs.deep_view()[i as int].name == p@);
            }
            return Some(i);
        }
        i = i + 1;
    }
    None
}

/// A fresh group for `c`, and the spawns that start it; a group of the same
/// program is stopped and replaced.
pub open spec fn launch_group(sname: Seq<char>, gs: Seq<GroupView>, c: ConfigView) -> (Seq<GroupView>, Seq<ActionView>) {
    let g = GroupView { config: c, nb_threads: c.numprocs as nat };
    match find_group(gs, c.name) {
        Some(i) => (gs.update(i, g), seq![ActionView::RemoveGroup(sname, c.name)] + spawns(sname, c.name, c, c.numprocs as nat)),
        None => (gs.push(g), spawns(sname, c.name, c, c.numprocs as nat)),
    }
}

/// Launches the configurations in order.
pub open spec fn launch_groups(sname: Seq<char>, gs: Seq<GroupView>, cs: Seq<ConfigView>) -> (Seq<GroupView>, Seq<ActionView>)
    decreases cs.len(),
{
    if cs.len() == 0 {
        (gs, Seq::<ActionView>::empty())
    } else {
        let (g1, a1) = launch_groups(sname, gs, cs.drop_last());
        let (g2, a2) = launch_group(sname, g1, cs.last());
        (g2, a1 + a2)
    }
}

/// What becomes of a running group when the configurations are read anew:
/// it goes when its program is gone or changed fatally; otherwise it takes the
/// new configuration and grows or shrinks to its number of processes.
pub open spec fn reread_group(sname: Seq<char>, g: GroupView, new: Seq<ConfigView>) -> (Option<GroupView>, Seq<ActionView>) {
    let p = g.config.name;
    match find_config(new, p) {
        None => (None, seq![ActionView::RemoveGroup(sname, p)]),
        Some(i) => {
            let c = new[i];
            if fatal_diff(g.config, c) {
                (None, seq![ActionView::RemoveGroup(sname, p)])
            } else if c.numprocs >= g.config.numprocs {
                (
                    Some(GroupView { config: c, nb_threads: c.numprocs as nat }),
                    seq![ActionView::Reread(sname, p, c)] + spawns(sname, p, c, (c.numprocs - g.config.numprocs) as nat),
                )
            } else {
                (
                    Some(GroupView { config: c, nb_threads: c.numprocs as nat }),
                    pops(sname, p, (g.config.numprocs - c.numprocs) as nat).push(ActionView::Reread(sname, p, c)),
                )
            }
        },
    }
}

/// The running groups, in order, after the configurations are read anew.
pub open spec fn reread_kept(sname: Seq<char>, gs: Seq<GroupView>, new: Seq<ConfigView>) -> (Seq<GroupView>, Seq<ActionView>)
    decreases gs.len(),
{
    if gs.len() == 0 {
        (Seq::<GroupView>::empty(), Seq::<ActionView>::empty())
    } else {
        let (k, a) = reread_kept(sname, gs.drop_last(), new);
        let (o, b) = reread_group(sname, gs.last(), new);
        (
            match o {
                Some(g) => k.push(g),
                None => k,
            },
            a + b,
        )
    }
}

/// Launches the new configurations that have no group yet; returns the
/// groups, the actions and the configurations that already had one.
pub open spec fn reread_added(sname: Seq<char>, gs: Seq<GroupView>, new: Seq<ConfigView>) -> (
    Seq<GroupView>,
    Seq<ActionView>,
    Seq<ConfigView>,
)
    decreases new.len(),
{
    if new.len() == 0 {
        (gs, Seq::<ActionView>::empty(), Seq::<ConfigView>::empty())
    } else {
        let (g1, a1, r1) = reread_added(sname, gs, new.drop_last());
        let c = new.last();
        if find_group(g1, c.name) is Some {
            (g1, a1, r1.push(c))
        } else {
            (
                g1.push(GroupView { config: c, nb_threads: c.numprocs as nat }),
                a1 + spawns(sname, c.name, c, c.numprocs as nat),
                r1,
            )
        }
    }
}

/// A service read anew: its groups, the actions, and the configurations that
/// were applied to groups already running.
pub open spec fn service_reread(sname: Seq<char>, gs: Seq<GroupView>, new: Seq<ConfigView>) -> (
    Seq<GroupView>,
    Seq<ActionView>,
    Seq<ConfigView>,
) {
    let (k, a) = reread_kept(sname, gs, new);
    let (g2, a2, r) = reread_added(sname, k, new);
    (g2, a + a2, r)
}

impl Service {
    /// Launches a group for each configuration, in order.
    pub fn launch_from_hash(&mut self, process_hash: Vec<Config>, acts: &mut Vec<ThreadAction>)
        ensures
            final(self)@.name == old(self)@.name,
            final(self)@.groups == launch_groups(old(self)@.name, old(self)@.groups, process_hash.deep_view()).0,
            final(acts).deep_view() == old(acts).deep_view() + launch_groups(old(self)@.name, old(self)@.groups, process_hash.deep_view()).1,
    {
        let ghost sname = self@.name;
        let ghost g0 = self@.groups;
        let ghost a0 = acts.deep_view();
        let ghost cs = process_hash.deep_view();
        let n = process_hash.len();
        let mut i: usize = 0;
        proof {
            assert(cs.take(0) =~= Seq::<ConfigView>::empty());
            assert(acts.deep_view() =~= a0 + launch_groups(sname, g0, cs.take(0)).1);
        }
        while i < n
            invariant
                n == process_hash.len(),
                i <= n,
                cs == process_hash.deep_view(),
                self@.name == sname,
                self@.groups == launch_groups(sname, g0, cs.take(i as int)).0,
                acts.deep_view() == a0 + launch_groups(sname, g0, cs.take(i as int)).1,
            decreases n - i,
        {
            let config = &process_hash[i];
            proof {
                assert(cs.take(i + 1).drop_last() =~= cs.take(i as int));
                assert(cs.take(i + 1).last() == config@);
            }
            let ghost gs_before = self@.groups;
            let ghost acts_before = acts.deep_view();
            proof {
                lemma_find_group(self@.groups, config@.name);
            }
            match self.position(config.name.as_str()) {
                Some(k) => {
                    let rm = ThreadAction::RemoveGroup { service: self.name.clone(), process: config.name.clone() };
                    acts.push(rm);
                    let t = ThreadVec::new(&self.name, config, acts);
                    self.thread_hash.set(k, t);
                    proof {
                        assert(self@.groups =~= gs_before.update(k as int, t@));
                        assert(acts.deep_view() =~= acts_before + (seq![rm@] + spawns(sname, config@.name, config@, config@.numprocs as nat)));
                    }
                },
                None => {
                    let t = ThreadVec::new(&self.name, config, acts);
                    self.thread_hash.push(t);
                    proof {
                        assert(self@.groups =~= gs_before.push(t@));
                    }
                },
            }
            i = i + 1;
        }
        proof {
            assert(cs.take(n as int) =~= cs);
        }
    }
}


/// The two configurations differ in what the program is started with.
fn differs_fatally(a: &Config, b: &Config) -> (r: bool)
    ensures
        r == fatal_diff(a@, b@),
{
    a.fatal_cmp(b)
}

impl Service {
    /// Function that compare an existing service to its new version defined in
    /// the config files.  Process not needed anymore are killed, the ones
    /// missing are launched, and the ones present in both are changed only if
    /// necessary, despawning them only if absolutely required. On return
    /// `reread_process_hash` holds the configurations that went to groups
    /// already running.
    pub fn reread(&mut self, reread_process_hash: &mut Vec<Config>, acts: &mut Vec<ThreadAction>)
        requires
            groups_wf(old(self)@.groups),
        ensures
            final(self)@.name == old(self)@.name,
            final(self)@.groups == service_reread(old(self)@.name, old(self)@.groups, old(reread_process_hash).deep_view()).0,
            final(acts).deep_view() == old(acts).deep_view() + service_reread(
                old(self)@.name,
                old(self)@.groups,
                old(reread_process_hash).deep_view(),
            ).1,
            final(reread_process_hash).deep_view() == service_reread(
                old(self)@.name,
                old(self)@.groups,
                old(reread_process_hash).deep_view(),
            ).2,
    {
        let ghost sname = self@.name;
        let ghost gs = self@.groups;
        let ghost new = reread_process_hash.deep_view();
        let ghost a0 = acts.deep_view();
        let mut old_groups: Vec<ThreadVec> = Vec::new();
        std::mem::swap(&mut old_groups, &mut self.thread_hash);
        assert(old_groups.deep_view() == gs);
        let n = old_groups.len();
        let mut i: usize = 0;
        proof {
            assert(gs.take(0) =~= Seq::<GroupView>::empty());
            assert(self.thread_hash.deep_view() =~= Seq::<GroupView>::empty());
            assert(acts.deep_view() =~= a0 + reread_kept(sname, gs.take(0), new).1);
        }
        while i < n
            invariant
                n == old_groups.len(),
                i <= n,
                gs == old_groups.deep_view(),
                groups_wf(gs),
                new == reread_process_hash.deep_view(),
                self@.name == sname,
                self@.groups == reread_kept(sname, gs.take(i as int), new).0,
                acts.deep_view() == a0 + reread_kept(sname, gs.take(i as int), new).1,
            decreases n - i,
        {
            let g = &old_groups[i];
            proof {
                assert(gs.take(i + 1).drop_last() =~= gs.take(i as int));
                assert(gs.take(i + 1).last() == g@);
                assert(g@.nb_threads == g@.config.numprocs);
                lemma_find_config(new, g@.config.name);
            }
            let ghost k0 = self@.groups;
            let ghost b0 = acts.deep_view();
            match config_position(reread_process_hash, g.config.name.as_str()) {
                None => {
                    let rm = ThreadAction::RemoveGroup { service: self.name.clone(), process: g.config.name.clone() };
                    acts.push(rm);
                    proof {
                        assert(acts.deep_view() =~= b0 + seq![rm@]);
                    }
                },
                Some(k) => {
                    let c = &reread_process_hash[k];
                    proof {
                        assert(new[k as int] == c@);
                    }
                    if differs_fatally(&g.config, c) {
                        let rm = ThreadAction::RemoveGroup { service: self.name.clone(), process: g.config.name.clone() };
                        acts.push(rm);
                        proof {
                            assert(acts.deep_view() =~= b0 + seq![rm@]);
                        }
                    } else if c.numprocs >= g.config.numprocs {
                        let rr = ThreadAction::Reread { service: self.name.clone(), process: g.config.name.clone(), config: c.clone() };
                        acts.push(rr);
                        let ghost b1 = acts.deep_view();
                        push_spawns(acts, &self.name, c, c.numprocs - g.config.numprocs);
                        let t = ThreadVec { config: c.clone(), nb_threads: c.numprocs };
                        self.thread_hash.push(t);
                        proof {
                            assert(b1 =~= b0.push(rr@));
                            assert(acts.deep_view() =~= b0 + (seq![rr@] + spawns(sname, g@.config.name, c@, (c@.numprocs - g@.config.numprocs) as nat)));
                            assert(self@.groups =~= k0.push(t@));
                        }
                    } else {
                        push_pops(acts, &self.name, &g.config.name, g.config.numprocs - c.numprocs);
                        let ghost b1 = acts.deep_view();
                        let rr = ThreadAction::Reread { service: self.name.clone(), process: g.config.name.clone(), config: c.clone() };
                        acts.push(rr);
                        let t = ThreadVec { config: c.clone(), nb_threads: c.numprocs };
                        self.thread_hash.push(t);
                        proof {
                            assert(acts.deep_view() =~= b1.push(rr@));
                            assert(acts.deep_view() =~= b0 + pops(sname, g@.config.name, (g@.config.numprocs - c@.numprocs) as nat).push(rr@));
                            assert(self@.groups =~= k0.push(t@));
                        }
                    }
                },
            }
            i = i + 1;
        }
        proof {
            assert(gs.take(n as int) =~= gs);
        }
        let ghost kept = self@.groups;
        let ghost a1 = acts.deep_view();
        let mut remaining: Vec<Config> = Vec::new();
        let m = reread_process_hash.len();
        let mut j: usize = 0;
        proof {
            assert(new.take(0) =~= Seq::<ConfigView>::empty());
            assert(remaining.deep_view() =~= Seq::<ConfigView>::empty());
            assert(acts.deep_view() =~= a1 + reread_added(sname, kept, new.take(0)).1);
        }
        while j < m
            invariant
                m == reread_process_hash.len(),
                j <= m,
                new == reread_process_hash.deep_view(),
                self@.name == sname,
                self@.groups == reread_added(sname, kept, new.take(j as int)).0,
                acts.deep_view() == a1 + reread_added(sname, kept, new.take(j as int)).1,
                remaining.deep_view() == reread_added(sname, kept, new.take(j as int)).2,
            decreases m - j,
        {
            let c = &reread_process_hash[j];
            proof {
                assert(new.take(j + 1).drop_last() =~= new.take(j as int));
                assert(new.take(j + 1).last() == c@);
            }
            let ghost k0 = self@.groups;
            let ghost b0 = acts.deep_view();
            let ghost r0 = remaining.deep_view();
            if self.position(c.name.as_str()).is_some() {
                let cc = c.clone();
                remaining.push(cc);
                proof {
                    assert(remaining.deep_view() =~= r0.push(c@));
                }
            } else {
                let t = ThreadVec::new(&self.name, c, acts);
                self.thread_hash.push(t);
                proof {
                    assert(self@.groups =~= k0.push(t@));
                }
            }
            j = j + 1;
        }
        proof {
            assert(new.take(m as int) =~= new);
        }
        *reread_process_hash = remaining;
    }
}


pub proof fn lemma_launch_group_wf(sname: Seq<char>, gs: Seq<GroupView>, c: ConfigView)
    requires
        groups_wf(gs),
    ensures
        groups_wf(launch_group(sname, gs, c).0),
{
    lemma_find_group(gs, c.name);
    let g = GroupView { config: c, nb_threads: c.numprocs as nat };
    match find_group(gs, c.name) {
        Some(i) => {
            let r = gs.update(i, g);
            assert forall|a: int, b: int| 0 <= a < r.len() && 0 <= b < r.len() && a != b implies r[a].config.name != r[b].config.name by {
                if a == i {
                    assert(r[b] == gs[b]);
                } else if b == i {
                    assert(r[a] == gs[a]);
                } else {
                    assert(r[a] == gs[a] && r[b] == gs[b]);
                }
            }
            assert forall|a: int| 0 <= a < r.len() implies (#[trigger] r[a]).nb_threads == r[a].config.numprocs by {
                if a != i {
                    assert(r[a] == gs[a]);
                }
            }
        },
        None => {
            let r = gs.push(g);
            assert forall|a: int, b: int| 0 <= a < r.len() && 0 <= b < r.len() && a != b implies r[a].config.name != r[b].config.name by {
                if a < gs.len() && b < gs.len() {
                    assert(r[a] == gs[a] && r[b] == gs[b]);
                } else if a < gs.len() {
                    assert(r[a] == gs[a]);
                } else {
                    assert(r[b] == gs[b]);
                }
            }
            assert forall|a: int| 0 <= a < r.len() implies (#[trigger] r[a]).nb_threads == r[a].config.numprocs by {
                if a < gs.len() {
                    assert(r[a] == gs[a]);
                }
            }
        },
    }
}

pub proof fn lemma_launch_groups_wf(sname: Seq<char>, gs: Seq<GroupView>, cs: Seq<ConfigView>)
    requires
        groups_wf(gs),
    ensures
        groups_wf(launch_groups(sname, gs, cs).0),
    decreases cs.len(),
{
    if cs.len() > 0 {
        lemma_launch_groups_wf(sname, gs, cs.drop_last());
        lemma_launch_group_wf(sname, launch_groups(sname, gs, cs.drop_last()).0, cs.last());
    }
}

proof fn lemma_push_fresh_wf(gs: Seq<GroupView>, g: GroupView)
    requires
        groups_wf(gs),
        forall|j: int| 0 <= j < gs.len() ==> gs[j].config.name != g.config.name,
        g.nb_threads == g.config.numprocs,
    ensures
        groups_wf(gs.push(g)),
{
    let r = gs.push(g);
    assert forall|a: int, b: int| 0 <= a < r.len() && 0 <= b < r.len() && a != b implies r[a].config.name != r[b].config.name by {
        if a < gs.len() && b < gs.len() {
            assert(r[a] == gs[a] && r[b] == gs[b]);
        } else if a < gs.len() {
            assert(r[a] == gs[a]);
        } else {
            assert(r[b] == gs[b]);
        }
    }
    assert forall|a: int| 0 <= a < r.len() implies (#[trigger] r[a]).nb_threads == r[a].config.numprocs by {
        if a < gs.len() {
            assert(r[a] == gs[a]);
        }
    }
}

/// The groups kept are groups of the old programs, under the same names.
proof fn lemma_reread_kept_wf(sname: Seq<char>, gs: Seq<GroupView>, new: Seq<ConfigView>)
    requires
        groups_wf(gs),
    ensures
        groups_wf(reread_kept(sname, gs, new).0),
        forall|i: int| 0 <= i < reread_kept(sname, gs, new).0.len() ==> exists|j: int| 0 <= j < gs.len()
            && (#[trigger] reread_kept(sname, gs, new).0[i]).config.name == gs[j].config.name,
    decreases gs.len(),
{
    if gs.len() > 0 {
        let pre = gs.drop_last();
        assert(groups_wf(pre)) by {
            assert forall|a: int, b: int| 0 <= a < pre.len() && 0 <= b < pre.len() && a != b implies pre[a].config.name != pre[b].config.name by {
                assert(pre[a] == gs[a] && pre[b] == gs[b]);
            }
            assert forall|a: int| 0 <= a < pre.len() implies (#[trigger] pre[a]).nb_threads == pre[a].config.numprocs by {
                assert(pre[a] == gs[a]);
            }
        }
        lemma_reread_kept_wf(sname, pre, new);
        let k = reread_kept(sname, pre, new).0;
        let g = gs.last();
        lemma_find_config(new, g.config.name);
        let r = reread_kept(sname, gs, new).0;
        match reread_group(sname, g, new).0 {
            Some(g2) => {
                assert(g2.config.name == g.config.name);
                assert forall|j: int| 0 <= j < k.len() implies k[j].config.name != g2.config.name by {
                    let m = choose|m: int| 0 <= m < pre.len() && k[j].config.name == pre[m].config.name;
                    assert(pre[m] == gs[m]);
                }
                lemma_push_fresh_wf(k, g2);
                assert(r == k.push(g2));
                assert forall|i: int| 0 <= i < r.len() implies exists|j: int| 0 <= j < gs.len()
                    && (#[trigger] r[i]).config.name == gs[j].config.name by {
                    if i < k.len() {
                        assert(r[i] == k[i]);
                        let m = choose|m: int| 0 <= m < pre.len() && k[i].config.name == pre[m].config.name;
                        assert(pre[m] == gs[m]);
                    } else {
                        assert(r[i].config.name == gs[gs.len() - 1].config.name);
                    }
                }
            },
            None => {
                assert(r == k);
                assert forall|i: int| 0 <= i < r.len() implies exists|j: int| 0 <= j < gs.len()
                    && (#[trigger] r[i]).config.name == gs[j].config.name by {
                    let m = choose|m: int| 0 <= m < pre.len() && k[i].config.name == pre[m].config.name;
                    assert(pre[m] == gs[m]);
                }
            },
        }
    }
}

proof fn lemma_reread_added_wf(sname: Seq<char>, gs: Seq<GroupView>, new: Seq<ConfigView>)
    requires
        groups_wf(gs),
    ensures
        groups_wf(reread_added(sname, gs, new).0),
    decreases new.len(),
{
    if new.len() > 0 {
        lemma_reread_added_wf(sname, gs, new.drop_last());
        let g1 = reread_added(sname, gs, new.drop_last()).0;
        let c = new.last();
        lemma_find_group(g1, c.name);
        if find_group(g1, c.name) is None {
            lemma_push_fresh_wf(g1, GroupView { config: c, nb_threads: c.numprocs as nat });
        }
    }
}

/// Reading a service anew keeps its groups well formed.
pub proof fn lemma_service_reread_wf(sname: Seq<char>, gs: Seq<GroupView>, new: Seq<ConfigView>)
    requires
        groups_wf(gs),
    ensures
        groups_wf(service_reread(sname, gs, new).0),
{
    lemma_reread_kept_wf(sname, gs, new);
    lemma_reread_added_wf(sname, reread_kept(sname, gs, new).0, new);
}


/// No two configurations are of the same program.
pub open spec fn config_names_distinct(cs: Seq<ConfigView>) -> bool {
    forall|i: int, j: int| 0 <= i < cs.len() && 0 <= j < cs.len() && i != j ==> cs[i].name != cs[j].name
}

/// The group is running the configuration that `cs` holds for its program.
pub open spec fn runs_config(g: GroupView, cs: Seq<ConfigView>) -> bool {
    find_config(cs, g.config.name) matches Some(k) && cs[k] == g.config
}

/// The groups run exactly the configurations `cs`: each group the
/// configuration of its program, and each configuration has a group.
pub open spec fn groups_match(gs: Seq<GroupView>, cs: Seq<ConfigView>) -> bool {
    &&& forall|i: int| 0 <= i < gs.len() ==> runs_config(#[trigger] gs[i], cs)
    &&& forall|k: int| 0 <= k < cs.len() ==> #[trigger] find_group(gs, cs[k].name) is Some
}

pub proof fn lemma_find_config_distinct(cs: Seq<ConfigView>, k: int)
    requires
        config_names_distinct(cs),
        0 <= k < cs.len(),
    ensures
        find_config(cs, cs[k].name) == Some(k),
{
    lemma_find_config(cs, cs[k].name);
}

pub proof fn lemma_find_group_push(gs: Seq<GroupView>, g: GroupView, p: Seq<char>)
    requires
        find_group(gs, p) is Some,
    ensures
        find_group(gs.push(g), p) == find_group(gs, p),
{
    lemma_find_group(gs, p);
    lemma_find_group(gs.push(g), p);
    let i = find_group(gs, p)->Some_0;
    assert(gs.push(g)[i] == gs[i]);
    match find_group(gs.push(g), p) {
        Some(j) => {
            if j < i {
                assert(gs.push(g)[j] == gs[j]);
            }
        },
        None => {},
    }
}

proof fn lemma_reread_kept_runs(sname: Seq<char>, gs: Seq<GroupView>, new: Seq<ConfigView>)
    ensures
        forall|i: int| 0 <= i < reread_kept(sname, gs, new).0.len() ==> runs_config(
            #[trigger] reread_kept(sname, gs, new).0[i],
            new,
        ),
    decreases gs.len(),
{
    if gs.len() > 0 {
        lemma_reread_kept_runs(sname, gs.drop_last(), new);
        let k = reread_kept(sname, gs.drop_last(), new).0;
        let g = gs.last();
        lemma_find_config(new, g.config.name);
        let r = reread_kept(sname, gs, new).0;
        match reread_group(sname, g, new).0 {
            Some(g2) => {
                assert(r == k.push(g2));
                assert(runs_config(g2, new));
                assert forall|i: int| 0 <= i < r.len() implies runs_config(#[trigger] r[i], new) by {
                    if i < k.len() {
                        assert(r[i] == k[i]);
                    }
                }
            },
            None => {},
        }
    }
}

proof fn lemma_reread_added_runs(sname: Seq<char>, gs: Seq<GroupView>, all: Seq<ConfigView>, m: int)
    requires
        0 <= m <= all.len(),
        config_names_distinct(all),
        forall|i: int| 0 <= i < gs.len() ==> runs_config(#[trigger] gs[i], all),
    ensures
        forall|i: int| 0 <= i < reread_added(sname, gs, all.take(m)).0.len() ==> runs_config(
            #[trigger] reread_added(sname, gs, all.take(m)).0[i],
            all,
        ),
        forall|k: int| 0 <= k < m ==> #[trigger] find_group(reread_added(sname, gs, all.take(m)).0, all[k].name) is Some,
    decreases m,
{
    if m > 0 {
        let p = all.take(m);
        assert(p.drop_last() =~= all.take(m - 1));
        lemma_reread_added_runs(sname, gs, all, m - 1);
        let g1 = reread_added(sname, gs, all.take(m - 1)).0;
        let c = p.last();
        assert(c == all[m - 1]);
        let r = reread_added(sname, gs, p).0;
        if find_group(g1, c.name) is Some {
            assert(r == g1);
        } else {
            let x = GroupView { config: c, nb_threads: c.numprocs as nat };
            assert(r == g1.push(x));
            lemma_find_config_distinct(all, m - 1);
            assert(runs_config(x, all));
            assert forall|i: int| 0 <= i < r.len() implies runs_config(#[trigger] r[i], all) by {
                if i < g1.len() {
                    assert(r[i] == g1[i]);
                }
            }
            assert forall|k: int| 0 <= k < m implies #[trigger] find_group(r, all[k].name) is Some by {
                if k < m - 1 {
                    lemma_find_group_push(g1, x, all[k].name);
                } else {
                    lemma_find_group(r, all[k].name);
                    assert(r[r.len() - 1].config.name == all[k].name);
                }
            }
        }
    } else {
        assert(all.take(0) =~= Seq::<ConfigView>::empty());
    }
}

/// After a service is read anew, its groups run exactly the new
/// configurations, each group the configuration of its program.
pub proof fn lemma_service_reread_matches(sname: Seq<char>, gs: Seq<GroupView>, new: Seq<ConfigView>)
    requires
        config_names_distinct(new),
    ensures
        groups_match(service_reread(sname, gs, new).0, new),
{
    lemma_reread_kept_runs(sname, gs, new);
    let k = reread_kept(sname, gs, new).0;
    lemma_reread_added_runs(sname, k, new, new.len() as int);
    assert(new.take(new.len() as int) =~= new);
}

/// Launching configurations from no groups runs exactly those configurations.
pub proof fn lemma_launch_groups_matches(sname: Seq<char>, all: Seq<ConfigView>, m: int)
    requires
        0 <= m <= all.len(),
        config_names_distinct(all),
    ensures
        forall|i: int| 0 <= i < launch_groups(sname, Seq::<GroupView>::empty(), all.take(m)).0.len() ==> runs_config(
            #[trigger] launch_groups(sname, Seq::<GroupView>::empty(), all.take(m)).0[i],
            all,
        ),
        forall|k: int| 0 <= k < m ==> #[trigger] find_group(launch_groups(sname, Seq::<GroupView>::empty(), all.take(m)).0, all[k].name) is Some,
        forall|k: int| m <= k < all.len() ==> find_group(launch_groups(sname, Seq::<GroupView>::empty(), all.take(m)).0, #[trigger] all[k].name) is None,
    decreases m,
{
    let e = Seq::<GroupView>::empty();
    if m > 0 {
        let p = all.take(m);
        assert(p.drop_last() =~= all.take(m - 1));
        lemma_launch_groups_matches(sname, all, m - 1);
        let g1 = launch_groups(sname, e, all.take(m - 1)).0;
        let c = p.last();
        assert(c == all[m - 1]);
        assert(find_group(g1, c.name) is None);
        let x = GroupView { config: c, nb_threads: c.numprocs as nat };
        let r = launch_groups(sname, e, p).0;
        assert(r == g1.push(x));
        lemma_find_config_distinct(all, m - 1);
        assert forall|i: int| 0 <= i < r.len() implies runs_config(#[trigger] r[i], all) by {
            if i < g1.len() {
                assert(r[i] == g1[i]);
            }
        }
        assert forall|k: int| 0 <= k < m implies #[trigger] find_group(r, all[k].name) is Some by {
            if k < m - 1 {
                lemma_find_group_push(g1, x, all[k].name);
            } else {
                lemma_find_group(r, all[k].name);
                assert(r[r.len() - 1].config.name == all[k].name);
            }
        }
        assert forall|k: int| m <= k < all.len() implies find_group(r, #[trigger] all[k].name) is None by {
            lemma_find_group(g1, all[k].name);
            lemma_find_group(r, all[k].name);
            assert forall|j: int| 0 <= j < r.len() implies r[j].config.name != all[k].name by {
                if j < g1.len() {
                    assert(r[j] == g1[j]);
                }
            }
        }
    } else {
        assert(all.take(0) =~= Seq::<ConfigView>::empty());
        assert forall|k: int| m <= k < all.len() implies find_group(launch_groups(sname, e, all.take(m)).0, #[trigger] all[k].name) is None by {
            assert(launch_groups(sname, e, all.take(m)).0 == e);
        }
    }
}


/// The group can stay as it runs: its program is still configured, with no
/// fatal difference.
pub open spec fn kept_group(g: GroupView, cs: Seq<ConfigView>) -> bool {
    find_config(cs, g.config.name) matches Some(k) && !fatal_diff(g.config, cs[k])
}

/// Every group stopped by `acts` is a group of `gs` that cannot stay.
pub open spec fn removals_needed(sname: Seq<char>, gs: Seq<GroupView>, cs: Seq<ConfigView>, acts: Seq<ActionView>) -> bool {
    forall|t: int| 0 <= t < acts.len() ==> (#[trigger] acts[t] matches ActionView::RemoveGroup(s, p) ==> s == sname
        && exists|j: int| 0 <= j < gs.len() && gs[j].config.name == p && !kept_group(gs[j], cs))
}

proof fn lemma_reread_kept_removals(sname: Seq<char>, gs: Seq<GroupView>, new: Seq<ConfigView>)
    ensures
        removals_needed(sname, gs, new, reread_kept(sname, gs, new).1),
    decreases gs.len(),
{
    if gs.len() > 0 {
        let pre = gs.drop_last();
        lemma_reread_kept_removals(sname, pre, new);
        let a = reread_kept(sname, pre, new).1;
        let g = gs.last();
        let b = reread_group(sname, g, new).1;
        let acts = reread_kept(sname, gs, new).1;
        assert(acts == a + b);
        assert forall|t: int| 0 <= t < acts.len() implies (#[trigger] acts[t] matches ActionView::RemoveGroup(s, p) ==> s == sname
            && exists|j: int| 0 <= j < gs.len() && gs[j].config.name == p && !kept_group(gs[j], new)) by {
            if t < a.len() {
                assert(acts[t] == a[t]);
                if let ActionView::RemoveGroup(s, p) = a[t] {
                    let j = choose|j: int| 0 <= j < pre.len() && pre[j].config.name == p && !kept_group(pre[j], new);
                    assert(pre[j] == gs[j]);
                }
            } else {
                let u = t - a.len();
                assert(acts[t] == b[u]);
                if let ActionView::RemoveGroup(s, p) = b[u] {
                    match find_config(new, g.config.name) {
                        None => {},
                        Some(k) => {
                            if !fatal_diff(g.config, new[k]) {
                                let c = new[k];
                                if c.numprocs >= g.config.numprocs {
                                    let sp = spawns(sname, g.config.name, c, (c.numprocs - g.config.numprocs) as nat);
                                    assert(b == seq![ActionView::Reread(sname, g.config.name, c)] + sp);
                                    if u > 0 {
                                        assert(b[u] == sp[u - 1]);
                                    }
                                } else {
                                    let pp = pops(sname, g.config.name, (g.config.numprocs - c.numprocs) as nat);
                                    assert(b == pp.push(ActionView::Reread(sname, g.config.name, c)));
                                    if u < pp.len() {
                                        assert(b[u] == pp[u]);
                                    }
                                }
                            }
                        },
                    }
                    assert(gs[gs.len() - 1] == g);
                }
            }
        }
    }
}

proof fn lemma_reread_added_no_removal(sname: Seq<char>, gs: Seq<GroupView>, new: Seq<ConfigView>)
    ensures
        forall|t: int| 0 <= t < reread_added(sname, gs, new).1.len() ==> !(#[trigger] reread_added(sname, gs, new).1[t] is RemoveGroup),
    decreases new.len(),
{
    if new.len() > 0 {
        lemma_reread_added_no_removal(sname, gs, new.drop_last());
        let (g1, a1, r1) = reread_added(sname, gs, new.drop_last());
        let c = new.last();
        let acts = reread_added(sname, gs, new).1;
        if find_group(g1, c.name) is None {
            let sp = spawns(sname, c.name, c, c.numprocs as nat);
            assert(acts == a1 + sp);
            assert forall|t: int| 0 <= t < acts.len() implies !(#[trigger] acts[t] is RemoveGroup) by {
                if t < a1.len() {
                    assert(acts[t] == a1[t]);
                } else {
                    assert(acts[t] == sp[t - a1.len()]);
                }
            }
        }
    }
}

/// Reading a service anew stops only groups that cannot stay: programs no
/// longer configured, and programs whose configuration changed fatally.
pub proof fn lemma_service_reread_removals(sname: Seq<char>, gs: Seq<GroupView>, new: Seq<ConfigView>)
    ensures
        removals_needed(sname, gs, new, service_reread(sname, gs, new).1),
{
    lemma_reread_kept_removals(sname, gs, new);
    let k = reread_kept(sname, gs, new).0;
    lemma_reread_added_no_removal(sname, k, new);
    let a = reread_kept(sname, gs, new).1;
    let a2 = reread_added(sname, k, new).1;
    let acts = service_reread(sname, gs, new).1;
    assert(acts == a + a2);
    assert forall|t: int| 0 <= t < acts.len() implies (#[trigger] acts[t] matches ActionView::RemoveGroup(s, p) ==> s == sname
        && exists|j: int| 0 <= j < gs.len() && gs[j].config.name == p && !kept_group(gs[j], new)) by {
        if t < a.len() {
            assert(acts[t] == a[t]);
        } else {
            assert(acts[t] == a2[t - a.len()]);
        }
    }
}

/// Launching configurations of distinct programs from no groups stops nothing.
pub proof fn lemma_launch_groups_no_removal(sname: Seq<char>, all: Seq<ConfigView>, m: int)
    requires
        0 <= m <= all.len(),
        config_names_distinct(all),
    ensures
        forall|t: int| 0 <= t < launch_groups(sname, Seq::<GroupView>::empty(), all.take(m)).1.len()
            ==> !(#[trigger] launch_groups(sname, Seq::<GroupView>::empty(), all.take(m)).1[t] is RemoveGroup),
    decreases m,
{
    let e = Seq::<GroupView>::empty();
    if m > 0 {
        let p = all.take(m);
        assert(p.drop_last() =~= all.take(m - 1));
        lemma_launch_groups_no_removal(sname, all, m - 1);
        lemma_launch_groups_matches(sname, all, m - 1);
        let (g1, a1) = launch_groups(sname, e, all.take(m - 1));
        let c = p.last();
        assert(c == all[m - 1]);
        assert(find_group(g1, c.name) is None);
        let sp = spawns(sname, c.name, c, c.numprocs as nat);
        let acts = launch_groups(sname, e, p).1;
        assert(acts == a1 + sp);
        assert forall|t: int| 0 <= t < acts.len() implies !(#[trigger] acts[t] is RemoveGroup) by {
            if t < a1.len() {
                assert(acts[t] == a1[t]);
            } else {
                assert(acts[t] == sp[t - a1.len()]);
            }
        }
    } else {
        assert(all.take(0) =~= Seq::<ConfigView>::empty());
    }
}

proof fn lemma_reread_kept_unchanged(sname: Seq<char>, gs: Seq<GroupView>, cs: Seq<ConfigView>)
    requires
        groups_wf(gs),
        forall|i: int| 0 <= i < gs.len() ==> runs_config(#[trigger] gs[i], cs),
    ensures
        reread_kept(sname, gs, cs).0 == gs,
        forall|t: int| 0 <= t < reread_kept(sname, gs, cs).1.len() ==> #[trigger] reread_kept(sname, gs, cs).1[t] is Reread,
    decreases gs.len(),
{
    if gs.len() > 0 {
        let pre = gs.drop_last();
        let g = gs.last();
        assert(g == gs[gs.len() - 1]);
        assert(groups_wf(pre)) by {
            assert forall|i: int| 0 <= i < pre.len() implies (#[trigger] pre[i]).nb_threads == pre[i].config.numprocs by {
                assert(pre[i] == gs[i]);
            }
            assert forall|i: int, j: int| 0 <= i < pre.len() && 0 <= j < pre.len() && i != j implies pre[i].config.name
                != pre[j].config.name by {
                assert(pre[i] == gs[i]);
                assert(pre[j] == gs[j]);
            }
        }
        assert forall|i: int| 0 <= i < pre.len() implies runs_config(#[trigger] pre[i], cs) by {
            assert(pre[i] == gs[i]);
        }
        lemma_reread_kept_unchanged(sname, pre, cs);
        assert(runs_config(gs[gs.len() - 1], cs));
        let k = find_config(cs, g.config.name)->Some_0;
        assert(cs[k] == g.config);
        crate::tm_mod::config::lemma_fatal_diff_is_inequality(g.config, g.config);
        let (a1k, a1) = reread_kept(sname, pre, cs);
        let (o, b) = reread_group(sname, g, cs);
        assert(o == Some(g));
        let sp = spawns(sname, g.config.name, g.config, 0);
        assert(sp =~= Seq::<ActionView>::empty());
        assert(b =~= seq![ActionView::Reread(sname, g.config.name, g.config)]);
        assert(reread_kept(sname, gs, cs).0 =~= gs);
        let all = reread_kept(sname, gs, cs).1;
        assert(all == a1 + b);
        assert forall|t: int| 0 <= t < all.len() implies #[trigger] all[t] is Reread by {
            if t < a1.len() {
                assert(all[t] == a1[t]);
            } else {
                assert(all[t] == b[t - a1.len()]);
            }
        }
    }
}

proof fn lemma_reread_added_unchanged(sname: Seq<char>, gs: Seq<GroupView>, cs: Seq<ConfigView>)
    requires
        forall|k: int| 0 <= k < cs.len() ==> #[trigger] find_group(gs, cs[k].name) is Some,
    ensures
        reread_added(sname, gs, cs).0 == gs,
        reread_added(sname, gs, cs).1 == Seq::<ActionView>::empty(),
    decreases cs.len(),
{
    if cs.len() > 0 {
        let pre = cs.drop_last();
        assert forall|k: int| 0 <= k < pre.len() implies #[trigger] find_group(gs, pre[k].name) is Some by {
            assert(pre[k] == cs[k]);
        }
        lemma_reread_added_unchanged(sname, gs, pre);
        assert(find_group(gs, cs[cs.len() - 1].name) is Some);
    }
}

/// Reading a service anew with the configurations its groups already run
/// changes nothing: no group is stopped, started, grown or shrunk, and each
/// group is only handed its configuration again.
pub proof fn lemma_service_reread_unchanged(sname: Seq<char>, gs: Seq<GroupView>, cs: Seq<ConfigView>)
    requires
        groups_wf(gs),
        groups_match(gs, cs),
    ensures
        service_reread(sname, gs, cs).0 == gs,
        forall|t: int| 0 <= t < service_reread(sname, gs, cs).1.len() ==> #[trigger] service_reread(sname, gs, cs).1[t] is Reread,
{
    lemma_reread_kept_unchanged(sname, gs, cs);
    let (k, a) = reread_kept(sname, gs, cs);
    lemma_reread_added_unchanged(sname, k, cs);
    let all = service_reread(sname, gs, cs).1;
    assert(all =~= a);
}

/// An instruction for a program of a service that names no thread goes to
/// every thread of the program's group, one step each, threads 0, 1, ... in
/// order; one that names a thread the group has goes to that thread alone.
pub proof fn lemma_process_steps_threads(s: ServiceView, p: Seq<char>, id: usize)
    requires
        find_group(s.groups, p) is Some,
    ensures
        ({
            let g = s.groups[find_group(s.groups, p)->Some_0];
            &&& process_steps(s, p, None).len() == g.nb_threads
            &&& forall|k: int| 0 <= k < g.nb_threads ==> #[trigger] process_steps(s, p, None)[k] == StepView::Send(
                s.name,
                p,
                k as usize,
            )
            &&& id < g.nb_threads ==> process_steps(s, p, Some(id)) == seq![StepView::Send(s.name, p, id)]
        }),
{
    lemma_find_group(s.groups, p);
}

} // verus!
