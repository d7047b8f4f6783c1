//! The daemon's threads, program by program, as the configurations they run
//! in the order they were started, and what the actions on the threads do to
//! them: the actions that launching or reading the configuration anew hands
//! to the daemon take its threads exactly to the table of services that the
//! supervisor then holds.
use vstd::prelude::*;
use crate::tm_mod::config::ConfigView;
use crate::tm_mod::service::{groups_wf, find_group, lemma_find_group, launch_group, launch_groups, reread_group,
    reread_kept, reread_added, service_reread, group_names, find_config, lemma_find_config};
use crate::tm_mod::service::thread::{GroupView, ActionView, spawns, pops};
use crate::tm_mod::service::ServiceView;
use crate::tm_mod::config_file::ServiceConfigView;
use crate::tm_mod::supervisor::{services_wf, find_service, lemma_find_service, remove_all, launch_service, launch_services,
    drop_gone, add_services, update_services, tm_reread, remove_every, tm_reload, services_match, service_configs_distinct,
    lemma_launch_matches, lemma_launch_service_wf, lemma_drop_gone_wf, lemma_add_services_wf,
    lemma_update_services_wf};

verus! {

/// The service an action is for.
pub open spec fn act_service(a: ActionView) -> Seq<char> {
    match a {
        ActionView::Spawn(s, _, _) => s,
        ActionView::Pop(s, _) => s,
        ActionView::RemoveGroup(s, _) => s,
        ActionView::Reread(s, _, _) => s,
    }
}

/// The program an action is for.
pub open spec fn act_process(a: ActionView) -> Seq<char> {
    match a {
        ActionView::Spawn(_, p, _) => p,
        ActionView::Pop(_, p) => p,
        ActionView::RemoveGroup(_, p) => p,
        ActionView::Reread(_, p, _) => p,
    }
}

/// `n` threads running `c`.
pub open spec fn copies(c: ConfigView, n: nat) -> Seq<ConfigView> {
    Seq::new(n, |i: int| c)
}

/// The threads of program `p` of service `s` after the action, from the
/// threads `t`: a spawn starts one more, last; a pop stops the last; removing
/// the group stops them all; a configuration read anew goes to each.
pub open spec fn step_threads(a: ActionView, s: Seq<char>, p: Seq<char>, t: Seq<ConfigView>) -> Seq<ConfigView> {
    if act_service(a) == s && act_process(a) == p {
        match a {
            ActionView::Spawn(_, _, c) => t.push(c),
            ActionView::Pop(..) => if t.len() > 0 { t.drop_last() } else { t },
            ActionView::RemoveGroup(..) => Seq::<ConfigView>::empty(),
            ActionView::Reread(_, _, c) => copies(c, t.len()),
        }
    } else {
        t
    }
}

/// The threads of program `p` of service `s` after the actions, in order,
/// from the threads `t`.
pub open spec fn threads_after(acts: Seq<ActionView>, s: Seq<char>, p: Seq<char>, t: Seq<ConfigView>) -> Seq<ConfigView>
    decreases acts.len(),
{
    if acts.len() == 0 {
        t
    } else {
        step_threads(acts.last(), s, p, threads_after(acts.drop_last(), s, p, t))
    }
}

/// The threads of program `p` among the groups: each group's threads run its
/// configuration.
pub open spec fn group_threads(gs: Seq<GroupView>, p: Seq<char>) -> Seq<ConfigView>
    decreases gs.len(),
{
    if gs.len() == 0 {
        Seq::<ConfigView>::empty()
    } else {
        group_threads(gs.drop_last(), p) + if gs.last().config.name == p {
            copies(gs.last().config, gs.last().nb_threads)
        } else {
            Seq::<ConfigView>::empty()
        }
    }
}

/// The threads of program `p` of service `s` in the table of services.
pub open spec fn table_threads(ss: Seq<ServiceView>, s: Seq<char>, p: Seq<char>) -> Seq<ConfigView>
    decreases ss.len(),
{
    if ss.len() == 0 {
        Seq::<ConfigView>::empty()
    } else {
        table_threads(ss.drop_last(), s, p) + if ss.last().name == s {
            group_threads(ss.last().groups, p)
        } else {
            Seq::<ConfigView>::empty()
        }
    }
}

proof fn lemma_threads_concat(a: Seq<ActionView>, b: Seq<ActionView>, s: Seq<char>, p: Seq<char>, t: Seq<ConfigView>)
    ensures
        threads_after(a + b, s, p, t) == threads_after(b, s, p, threads_after(a, s, p, t)),
    decreases b.len(),
{
    if b.len() == 0 {
        assert(a + b =~= a);
    } else {
        lemma_threads_concat(a, b.drop_last(), s, p, t);
        assert((a + b).drop_last() =~= a + b.drop_last());
    }
}

proof fn lemma_threads_untouched(acts: Seq<ActionView>, s: Seq<char>, p: Seq<char>, t: Seq<ConfigView>)
    requires
        forall|i: int| 0 <= i < acts.len() ==> !(act_service(#[trigger] acts[i]) == s && act_process(acts[i]) == p),
    ensures
        threads_after(acts, s, p, t) == t,
    decreases acts.len(),
{
    if acts.len() > 0 {
        lemma_threads_untouched(acts.drop_last(), s, p, t);
        assert(acts.last() == acts[acts.len() - 1]);
    }
}

proof fn lemma_threads_single(x: ActionView, s: Seq<char>, p: Seq<char>, t: Seq<ConfigView>)
    ensures
        threads_after(seq![x], s, p, t) == step_threads(x, s, p, t),
{
    assert(seq![x].drop_last() =~= Seq::<ActionView>::empty());
    assert(threads_after(Seq::<ActionView>::empty(), s, p, t) == t);
    assert(seq![x].last() == x);
}

proof fn lemma_threads_spawns(s2: Seq<char>, p2: Seq<char>, c: ConfigView, k: nat, s: Seq<char>, p: Seq<char>, t: Seq<ConfigView>)
    ensures
        threads_after(spawns(s2, p2, c, k), s, p, t) == if s2 == s && p2 == p { t + copies(c, k) } else { t },
    decreases k,
{
    if k == 0 {
        assert(t + copies(c, 0) =~= t);
    } else {
        lemma_threads_spawns(s2, p2, c, (k - 1) as nat, s, p, t);
        assert(spawns(s2, p2, c, k).drop_last() =~= spawns(s2, p2, c, (k - 1) as nat));
        assert((t + copies(c, (k - 1) as nat)).push(c) =~= t + copies(c, k));
    }
}

proof fn lemma_threads_pops(s2: Seq<char>, p2: Seq<char>, k: nat, s: Seq<char>, p: Seq<char>, t: Seq<ConfigView>)
    requires
        k <= t.len(),
    ensures
        threads_after(pops(s2, p2, k), s, p, t) == if s2 == s && p2 == p { t.take(t.len() - k) } else { t },
    decreases k,
{
    if k == 0 {
        assert(t.take(t.len() as int) =~= t);
    } else {
        lemma_threads_pops(s2, p2, (k - 1) as nat, s, p, t);
        assert(pops(s2, p2, k).drop_last() =~= pops(s2, p2, (k - 1) as nat));
        assert(t.take(t.len() - (k - 1)).drop_last() =~= t.take(t.len() - k));
    }
}

proof fn lemma_copies_concat(c: ConfigView, n: nat, m: nat)
    ensures
        copies(c, n) + copies(c, m) == copies(c, n + m),
{
    assert(copies(c, n) + copies(c, m) =~= copies(c, n + m));
}

proof fn lemma_empty_concat(t: Seq<ConfigView>)
    ensures
        t + Seq::<ConfigView>::empty() == t,
        Seq::<ConfigView>::empty() + t == t,
{
    assert(t + Seq::<ConfigView>::empty() =~= t);
    assert(Seq::<ConfigView>::empty() + t =~= t);
}

/// With distinct program names, the threads of `p` are those of its group.
proof fn lemma_group_threads_of(gs: Seq<GroupView>, p: Seq<char>)
    requires
        forall|i: int, j: int| 0 <= i < gs.len() && 0 <= j < gs.len() && i != j ==> gs[i].config.name != gs[j].config.name,
    ensures
        group_threads(gs, p) == match find_group(gs, p) {
            Some(i) => copies(gs[i].config, gs[i].nb_threads),
            None => Seq::<ConfigView>::empty(),
        },
    decreases gs.len(),
{
    lemma_find_group(gs, p);
    if gs.len() > 0 {
        let pre = gs.drop_last();
        lemma_group_threads_of(pre, p);
        lemma_find_group(pre, p);
        let l = gs.len() - 1;
        let last = if gs[l].config.name == p {
            copies(gs[l].config, gs[l].nb_threads)
        } else {
            Seq::<ConfigView>::empty()
        };
        assert(group_threads(gs, p) == group_threads(pre, p) + last);
        lemma_empty_concat(last);
        lemma_empty_concat(group_threads(pre, p));
        match find_group(gs, p) {
            Some(i) => {
                if i < l {
                    assert(pre[i] == gs[i]);
                    assert(gs[l].config.name != p);
                    match find_group(pre, p) {
                        Some(j) => {
                            assert(pre[j] == gs[j]);
                        },
                        None => {
                            assert(pre[i].config.name == p);
                        },
                    }
                } else {
                    match find_group(pre, p) {
                        Some(j) => {
                            assert(pre[j] == gs[j]);
                        },
                        None => {},
                    }
                }
            },
            None => {
                assert(gs[l].config.name != p);
                match find_group(pre, p) {
                    Some(j) => {
                        assert(pre[j] == gs[j]);
                    },
                    None => {},
                }
            },
        }
    }
}

/// No group of `p`: no thread of `p`.
proof fn lemma_group_threads_none(gs: Seq<GroupView>, p: Seq<char>)
    requires
        forall|j: int| 0 <= j < gs.len() ==> gs[j].config.name != p,
    ensures
        group_threads(gs, p) == Seq::<ConfigView>::empty(),
    decreases gs.len(),
{
    if gs.len() > 0 {
        lemma_group_threads_none(gs.drop_last(), p);
        assert(gs.last() == gs[gs.len() - 1]);
        lemma_empty_concat(Seq::<ConfigView>::empty());
    }
}

proof fn lemma_group_threads_push(gs: Seq<GroupView>, g: GroupView, p: Seq<char>)
    ensures
        group_threads(gs.push(g), p) == group_threads(gs, p) + if g.config.name == p {
            copies(g.config, g.nb_threads)
        } else {
            Seq::<ConfigView>::empty()
        },
{
    assert(gs.push(g).drop_last() =~= gs);
}

proof fn lemma_group_threads_single(g: GroupView, p: Seq<char>)
    ensures
        group_threads(seq![g], p) == if g.config.name == p {
            copies(g.config, g.nb_threads)
        } else {
            Seq::<ConfigView>::empty()
        },
{
    assert(seq![g] =~= Seq::<GroupView>::empty().push(g));
    lemma_group_threads_push(Seq::<GroupView>::empty(), g, p);
    assert(group_threads(Seq::<GroupView>::empty(), p) == Seq::<ConfigView>::empty());
    lemma_empty_concat(if g.config.name == p { copies(g.config, g.nb_threads) } else { Seq::<ConfigView>::empty() });
}

/// Replacing a group by one of the same program, among groups of distinct
/// programs, replaces its threads.
proof fn lemma_group_threads_update(gs: Seq<GroupView>, i: int, g: GroupView, p: Seq<char>)
    requires
        0 <= i < gs.len(),
        forall|a: int, b: int| 0 <= a < gs.len() && 0 <= b < gs.len() && a != b ==> gs[a].config.name != gs[b].config.name,
        g.config.name == gs[i].config.name,
    ensures
        group_threads(gs.update(i, g), p) == if g.config.name == p {
            copies(g.config, g.nb_threads)
        } else {
            group_threads(gs, p)
        },
{
    let r = gs.update(i, g);
    assert forall|a: int, b: int| 0 <= a < r.len() && 0 <= b < r.len() && a != b implies r[a].config.name != r[b].config.name by {
        if a != i {
            assert(r[a] == gs[a]);
        }
        if b != i {
            assert(r[b] == gs[b]);
        }
    }
    lemma_group_threads_of(gs, p);
    lemma_group_threads_of(r, p);
    lemma_find_group(gs, p);
    lemma_find_group(r, p);
    assert(r[i] == g);
    if p == g.config.name {
        match find_group(r, p) {
            Some(j) => {
                if j != i {
                    assert(r[j].config.name == r[i].config.name);
                    assert(false);
                }
            },
            None => {
                assert(r[i].config.name == p);
                assert(false);
            },
        }
    } else {
        match find_group(r, p) {
            Some(j) => {
                assert(j != i);
                assert(r[j] == gs[j]);
                match find_group(gs, p) {
                    Some(k) => {
                        if k != j {
                            assert(gs[k].config.name == gs[j].config.name);
                            assert(false);
                        }
                    },
                    None => {
                        assert(gs[j].config.name == p);
                        assert(false);
                    },
                }
            },
            None => {
                match find_group(gs, p) {
                    Some(k) => {
                        assert(k != i);
                        assert(r[k] == gs[k]);
                        assert(false);
                    },
                    None => {},
                }
            },
        }
    }
}

/// The group left of a running group read anew, if any.
pub open spec fn kept_groups(o: Option<GroupView>) -> Seq<GroupView> {
    match o {
        Some(g) => seq![g],
        None => Seq::<GroupView>::empty(),
    }
}

proof fn lemma_launch_group_threads(sname: Seq<char>, gs: Seq<GroupView>, c: ConfigView)
    requires
        groups_wf(gs),
    ensures
        forall|t: int| 0 <= t < launch_group(sname, gs, c).1.len() ==> act_service(#[trigger] launch_group(sname, gs, c).1[t]) == sname
            && act_process(launch_group(sname, gs, c).1[t]) == c.name,
        forall|p: Seq<char>| threads_after(launch_group(sname, gs, c).1, sname, p, group_threads(gs, p))
            == #[trigger] group_threads(launch_group(sname, gs, c).0, p),
{
    lemma_find_group(gs, c.name);
    let g = GroupView { config: c, nb_threads: c.numprocs as nat };
    let (g2, a) = launch_group(sname, gs, c);
    let sp = spawns(sname, c.name, c, c.numprocs as nat);
    match find_group(gs, c.name) {
        Some(i) => {
            let r = seq![ActionView::RemoveGroup(sname, c.name)];
            assert(a == r + sp);
            assert forall|t: int| 0 <= t < a.len() implies act_service(#[trigger] a[t]) == sname && act_process(a[t]) == c.name by {
                if t > 0 {
                    assert(a[t] == sp[t - 1]);
                }
            }
            assert forall|p: Seq<char>| threads_after(a, sname, p, group_threads(gs, p)) == #[trigger] group_threads(g2, p) by {
                let t0 = group_threads(gs, p);
                lemma_threads_concat(r, sp, sname, p, t0);
                lemma_threads_single(ActionView::RemoveGroup(sname, c.name), sname, p, t0);
                lemma_threads_spawns(sname, c.name, c, c.numprocs as nat, sname, p, threads_after(r, sname, p, t0));
                lemma_group_threads_update(gs, i, g, p);
                lemma_empty_concat(copies(c, c.numprocs as nat));
            }
        },
        None => {
            assert forall|p: Seq<char>| threads_after(a, sname, p, group_threads(gs, p)) == #[trigger] group_threads(g2, p) by {
                lemma_threads_spawns(sname, c.name, c, c.numprocs as nat, sname, p, group_threads(gs, p));
                lemma_group_threads_push(gs, g, p);
                lemma_empty_concat(group_threads(gs, p));
                if p == c.name {
                    lemma_group_threads_none(gs, p);
                }
            }
        },
    }
}

proof fn lemma_launch_groups_threads(sname: Seq<char>, gs: Seq<GroupView>, cs: Seq<ConfigView>)
    requires
        groups_wf(gs),
    ensures
        forall|t: int| 0 <= t < launch_groups(sname, gs, cs).1.len() ==> act_service(#[trigger] launch_groups(sname, gs, cs).1[t]) == sname,
        forall|p: Seq<char>| threads_after(launch_groups(sname, gs, cs).1, sname, p, group_threads(gs, p))
            == #[trigger] group_threads(launch_groups(sname, gs, cs).0, p),
    decreases cs.len(),
{
    if cs.len() > 0 {
        lemma_launch_groups_threads(sname, gs, cs.drop_last());
        let (g1, a1) = launch_groups(sname, gs, cs.drop_last());
        crate::tm_mod::service::lemma_launch_groups_wf(sname, gs, cs.drop_last());
        lemma_launch_group_threads(sname, g1, cs.last());
        let (g2, a2) = launch_group(sname, g1, cs.last());
        let a = launch_groups(sname, gs, cs).1;
        assert(a == a1 + a2);
        assert forall|t: int| 0 <= t < a.len() implies act_service(#[trigger] a[t]) == sname by {
            if t < a1.len() {
                assert(a[t] == a1[t]);
            } else {
                assert(a[t] == a2[t - a1.len()]);
            }
        }
        assert forall|p: Seq<char>| threads_after(a, sname, p, group_threads(gs, p)) == #[trigger] group_threads(g2, p) by {
            lemma_threads_concat(a1, a2, sname, p, group_threads(gs, p));
            assert(group_threads(g1, p) == threads_after(a1, sname, p, group_threads(gs, p)));
        }
    } else {
        assert forall|p: Seq<char>| threads_after(launch_groups(sname, gs, cs).1, sname, p, group_threads(gs, p))
            == #[trigger] group_threads(launch_groups(sname, gs, cs).0, p) by {}
    }
}

proof fn lemma_reread_group_threads(sname: Seq<char>, g: GroupView, new: Seq<ConfigView>)
    requires
        g.nb_threads == g.config.numprocs,
    ensures
        forall|t: int| 0 <= t < reread_group(sname, g, new).1.len() ==> act_service(#[trigger] reread_group(sname, g, new).1[t]) == sname
            && act_process(reread_group(sname, g, new).1[t]) == g.config.name,
        reread_group(sname, g, new).0 matches Some(x) ==> x.config.name == g.config.name,
        forall|p: Seq<char>| threads_after(reread_group(sname, g, new).1, sname, p, group_threads(seq![g], p))
            == #[trigger] group_threads(kept_groups(reread_group(sname, g, new).0), p),
{
    let pn = g.config.name;
    lemma_find_config(new, pn);
    let (o, b) = reread_group(sname, g, new);
    assert forall|p: Seq<char>| threads_after(b, sname, p, group_threads(seq![g], p))
        == #[trigger] group_threads(kept_groups(o), p) by {
        lemma_group_threads_single(g, p);
        let t0 = group_threads(seq![g], p);
        match o {
            Some(x) => {
                lemma_group_threads_single(x, p);
            },
            None => {
                assert(group_threads(Seq::<GroupView>::empty(), p) == Seq::<ConfigView>::empty());
            },
        }
        match find_config(new, pn) {
            None => {
                lemma_threads_single(ActionView::RemoveGroup(sname, pn), sname, p, t0);
            },
            Some(i) => {
                let c = new[i];
                if crate::tm_mod::config::fatal_diff(g.config, c) {
                    lemma_threads_single(ActionView::RemoveGroup(sname, pn), sname, p, t0);
                } else if c.numprocs >= g.config.numprocs {
                    let k = (c.numprocs - g.config.numprocs) as nat;
                    let r = seq![ActionView::Reread(sname, pn, c)];
                    lemma_threads_concat(r, spawns(sname, pn, c, k), sname, p, t0);
                    lemma_threads_single(ActionView::Reread(sname, pn, c), sname, p, t0);
                    lemma_threads_spawns(sname, pn, c, k, sname, p, threads_after(r, sname, p, t0));
                    lemma_copies_concat(c, g.nb_threads, k);
                } else {
                    let k = (g.config.numprocs - c.numprocs) as nat;
                    let ps = pops(sname, pn, k);
                    assert(ps.push(ActionView::Reread(sname, pn, c)).drop_last() =~= ps);
                    if p == pn {
                        lemma_threads_pops(sname, pn, k, sname, p, t0);
                        assert(threads_after(ps, sname, p, t0).len() == c.numprocs);
                    } else {
                        lemma_threads_untouched(ps, sname, p, t0);
                    }
                }
            },
        }
    }
    match find_config(new, pn) {
        Some(i) => {
            let c = new[i];
            if !crate::tm_mod::config::fatal_diff(g.config, c) {
                if c.numprocs >= g.config.numprocs {
                    let sp = spawns(sname, pn, c, (c.numprocs - g.config.numprocs) as nat);
                    assert forall|t: int| 0 <= t < b.len() implies act_service(#[trigger] b[t]) == sname && act_process(b[t]) == pn by {
                        if t > 0 {
                            assert(b[t] == sp[t - 1]);
                        }
                    }
                }
            }
        },
        None => {},
    }
}

proof fn lemma_reread_kept_threads(sname: Seq<char>, gs: Seq<GroupView>, new: Seq<ConfigView>)
    requires
        groups_wf(gs),
    ensures
        forall|t: int| 0 <= t < reread_kept(sname, gs, new).1.len() ==> act_service(#[trigger] reread_kept(sname, gs, new).1[t]) == sname
            && group_names(gs).contains(act_process(reread_kept(sname, gs, new).1[t])),
        forall|p: Seq<char>| threads_after(reread_kept(sname, gs, new).1, sname, p, group_threads(gs, p))
            == #[trigger] group_threads(reread_kept(sname, gs, new).0, p),
    decreases gs.len(),
{
    if gs.len() == 0 {
        assert forall|p: Seq<char>| threads_after(reread_kept(sname, gs, new).1, sname, p, group_threads(gs, p))
            == #[trigger] group_threads(reread_kept(sname, gs, new).0, p) by {}
    } else {
        let pre = gs.drop_last();
        let g = gs.last();
        let l = gs.len() - 1;
        assert(g == gs[l]);
        assert(groups_wf(pre)) by {
            assert forall|i: int| 0 <= i < pre.len() implies (#[trigger] pre[i]).nb_threads == pre[i].config.numprocs by {
                assert(pre[i] == gs[i]);
            }
            assert forall|i: int, j: int| 0 <= i < pre.len() && 0 <= j < pre.len() && i != j implies pre[i].config.name
                != pre[j].config.name by {
                assert(pre[i] == gs[i]);
                assert(pre[j] == gs[j]);
            }
        }
        lemma_reread_kept_threads(sname, pre, new);
        lemma_reread_group_threads(sname, g, new);
        let (k1, a1) = reread_kept(sname, pre, new);
        let (o, b) = reread_group(sname, g, new);
        let (k, a) = reread_kept(sname, gs, new);
        assert(a == a1 + b);
        assert(!group_names(pre).contains(g.config.name)) by {
            if group_names(pre).contains(g.config.name) {
                let i = choose|i: int| 0 <= i < group_names(pre).len() && group_names(pre)[i] == g.config.name;
                assert(pre[i] == gs[i]);
            }
        }
        assert forall|t: int| 0 <= t < a.len() implies act_service(#[trigger] a[t]) == sname && group_names(gs).contains(
            act_process(a[t]),
        ) by {
            if t < a1.len() {
                assert(a[t] == a1[t]);
                let i = choose|i: int| 0 <= i < group_names(pre).len() && group_names(pre)[i] == act_process(a1[t]);
                assert(pre[i] == gs[i]);
                assert(group_names(gs)[i] == act_process(a[t]));
            } else {
                assert(a[t] == b[t - a1.len()]);
                assert(group_names(gs)[l] == act_process(a[t]));
            }
        }
        assert forall|p: Seq<char>| threads_after(a, sname, p, group_threads(gs, p)) == #[trigger] group_threads(k, p) by {
            let t0 = group_threads(gs, p);
            lemma_threads_concat(a1, b, sname, p, t0);
            lemma_group_threads_single(g, p);
            assert(group_threads(k1, p) == threads_after(a1, sname, p, group_threads(pre, p)));
            assert(threads_after(b, sname, p, group_threads(seq![g], p)) == group_threads(kept_groups(o), p));
            assert(gs =~= pre.push(g));
            lemma_group_threads_push(pre, g, p);
            lemma_empty_concat(group_threads(pre, p));
            lemma_empty_concat(group_threads(k1, p));
            match o {
                Some(x) => {
                    lemma_group_threads_push(k1, x, p);
                    lemma_group_threads_single(x, p);
                },
                None => {
                    assert(group_threads(Seq::<GroupView>::empty(), p) == Seq::<ConfigView>::empty());
                },
            }
            if p == g.config.name {
                assert forall|j: int| 0 <= j < pre.len() implies pre[j].config.name != p by {
                    assert(group_names(pre)[j] == pre[j].config.name);
                }
                lemma_group_threads_none(pre, p);
                lemma_empty_concat(copies(g.config, g.nb_threads));
                assert forall|t: int| 0 <= t < a1.len() implies !(act_service(#[trigger] a1[t]) == sname && act_process(a1[t]) == p) by {}
                lemma_threads_untouched(a1, sname, p, t0);
                lemma_threads_untouched(a1, sname, p, Seq::<ConfigView>::empty());
                lemma_empty_concat(group_threads(kept_groups(o), p));
            } else {
                lemma_threads_untouched(b, sname, p, group_threads(k1, p));
            }
        }
    }
}

proof fn lemma_reread_added_threads(sname: Seq<char>, gs: Seq<GroupView>, new: Seq<ConfigView>)
    ensures
        forall|t: int| 0 <= t < reread_added(sname, gs, new).1.len() ==> act_service(#[trigger] reread_added(sname, gs, new).1[t]) == sname,
        forall|p: Seq<char>| threads_after(reread_added(sname, gs, new).1, sname, p, group_threads(gs, p))
            == #[trigger] group_threads(reread_added(sname, gs, new).0, p),
    decreases new.len(),
{
    if new.len() == 0 {
        assert forall|p: Seq<char>| threads_after(reread_added(sname, gs, new).1, sname, p, group_threads(gs, p))
            == #[trigger] group_threads(reread_added(sname, gs, new).0, p) by {}
    } else {
        lemma_reread_added_threads(sname, gs, new.drop_last());
        let (g1, a1, r1) = reread_added(sname, gs, new.drop_last());
        let c = new.last();
        lemma_find_group(g1, c.name);
        if find_group(g1, c.name) is None {
            let g = GroupView { config: c, nb_threads: c.numprocs as nat };
            let sp = spawns(sname, c.name, c, c.numprocs as nat);
            let a = reread_added(sname, gs, new).1;
            assert(a == a1 + sp);
            assert forall|t: int| 0 <= t < a.len() implies act_service(#[trigger] a[t]) == sname by {
                if t < a1.len() {
                    assert(a[t] == a1[t]);
                } else {
                    assert(a[t] == sp[t - a1.len()]);
                }
            }
            assert forall|p: Seq<char>| threads_after(a, sname, p, group_threads(gs, p))
                == #[trigger] group_threads(reread_added(sname, gs, new).0, p) by {
                lemma_threads_concat(a1, sp, sname, p, group_threads(gs, p));
                assert(group_threads(g1, p) == threads_after(a1, sname, p, group_threads(gs, p)));
                lemma_threads_spawns(sname, c.name, c, c.numprocs as nat, sname, p, group_threads(g1, p));
                lemma_group_threads_push(g1, g, p);
                lemma_empty_concat(group_threads(g1, p));
                if p == c.name {
                    lemma_group_threads_none(g1, p);
                }
            }
        }
    }
}

proof fn lemma_service_reread_threads(sname: Seq<char>, gs: Seq<GroupView>, new: Seq<ConfigView>)
    requires
        groups_wf(gs),
    ensures
        forall|t: int| 0 <= t < service_reread(sname, gs, new).1.len() ==> act_service(#[trigger] service_reread(sname, gs, new).1[t]) == sname,
        forall|p: Seq<char>| threads_after(service_reread(sname, gs, new).1, sname, p, group_threads(gs, p))
            == #[trigger] group_threads(service_reread(sname, gs, new).0, p),
{
    lemma_reread_kept_threads(sname, gs, new);
    let (k, a) = reread_kept(sname, gs, new);
    lemma_reread_added_threads(sname, k, new);
    let (g2, a2, r) = reread_added(sname, k, new);
    let all = service_reread(sname, gs, new).1;
    assert(all == a + a2);
    assert forall|t: int| 0 <= t < all.len() implies act_service(#[trigger] all[t]) == sname by {
        if t < a.len() {
            assert(all[t] == a[t]);
        } else {
            assert(all[t] == a2[t - a.len()]);
        }
    }
    assert forall|p: Seq<char>| threads_after(all, sname, p, group_threads(gs, p)) == #[trigger] group_threads(g2, p) by {
        lemma_threads_concat(a, a2, sname, p, group_threads(gs, p));
        assert(group_threads(k, p) == threads_after(a, sname, p, group_threads(gs, p)));
    }
}

/// The names of the running services.
pub open spec fn running_names(ss: Seq<ServiceView>) -> Seq<Seq<char>> {
    ss.map_values(|v: ServiceView| v.name)
}

proof fn lemma_table_threads_of(ss: Seq<ServiceView>, s: Seq<char>, p: Seq<char>)
    requires
        forall|i: int, j: int| 0 <= i < ss.len() && 0 <= j < ss.len() && i != j ==> ss[i].name != ss[j].name,
    ensures
        table_threads(ss, s, p) == match find_service(ss, s) {
            Some(i) => group_threads(ss[i].groups, p),
            None => Seq::<ConfigView>::empty(),
        },
    decreases ss.len(),
{
    lemma_find_service(ss, s);
    if ss.len() > 0 {
        let pre = ss.drop_last();
        lemma_table_threads_of(pre, s, p);
        lemma_find_service(pre, s);
        let l = ss.len() - 1;
        let last = if ss[l].name == s { group_threads(ss[l].groups, p) } else { Seq::<ConfigView>::empty() };
        assert(table_threads(ss, s, p) == table_threads(pre, s, p) + last);
        lemma_empty_concat(last);
        lemma_empty_concat(table_threads(pre, s, p));
        match find_service(ss, s) {
            Some(i) => {
                if i < l {
                    assert(pre[i] == ss[i]);
                    assert(ss[l].name != s);
                    match find_service(pre, s) {
                        Some(j) => {
                            assert(pre[j] == ss[j]);
                        },
                        None => {
                            assert(pre[i].name == s);
                        },
                    }
                } else {
                    match find_service(pre, s) {
                        Some(j) => {
                            assert(pre[j] == ss[j]);
                        },
                        None => {},
                    }
                }
            },
            None => {
                assert(ss[l].name != s);
                match find_service(pre, s) {
                    Some(j) => {
                        assert(pre[j] == ss[j]);
                    },
                    None => {},
                }
            },
        }
    }
}

proof fn lemma_table_threads_none(ss: Seq<ServiceView>, s: Seq<char>, p: Seq<char>)
    requires
        forall|j: int| 0 <= j < ss.len() ==> ss[j].name != s,
    ensures
        table_threads(ss, s, p) == Seq::<ConfigView>::empty(),
    decreases ss.len(),
{
    if ss.len() > 0 {
        lemma_table_threads_none(ss.drop_last(), s, p);
        assert(ss.last() == ss[ss.len() - 1]);
        lemma_empty_concat(Seq::<ConfigView>::empty());
    }
}

proof fn lemma_table_threads_push(ss: Seq<ServiceView>, x: ServiceView, s: Seq<char>, p: Seq<char>)
    ensures
        table_threads(ss.push(x), s, p) == table_threads(ss, s, p) + if x.name == s {
            group_threads(x.groups, p)
        } else {
            Seq::<ConfigView>::empty()
        },
{
    assert(ss.push(x).drop_last() =~= ss);
}

/// Replacing a service by one of the same name, among services of distinct
/// names, replaces its threads.
proof fn lemma_table_threads_update(ss: Seq<ServiceView>, i: int, x: ServiceView, s: Seq<char>, p: Seq<char>)
    requires
        0 <= i < ss.len(),
        forall|a: int, b: int| 0 <= a < ss.len() && 0 <= b < ss.len() && a != b ==> ss[a].name != ss[b].name,
        x.name == ss[i].name,
    ensures
        table_threads(ss.update(i, x), s, p) == if x.name == s { group_threads(x.groups, p) } else { table_threads(ss, s, p) },
{
    let r = ss.update(i, x);
    assert forall|a: int, b: int| 0 <= a < r.len() && 0 <= b < r.len() && a != b implies r[a].name != r[b].name by {
        if a != i {
            assert(r[a] == ss[a]);
        }
        if b != i {
            assert(r[b] == ss[b]);
        }
    }
    lemma_table_threads_of(ss, s, p);
    lemma_table_threads_of(r, s, p);
    lemma_find_service(ss, s);
    lemma_find_service(r, s);
    assert(r[i] == x);
    if s == x.name {
        match find_service(r, s) {
            Some(j) => {
                if j != i {
                    assert(r[j].name == r[i].name);
                    assert(false);
                }
            },
            None => {
                assert(r[i].name == s);
                assert(false);
            },
        }
    } else {
        match find_service(r, s) {
            Some(j) => {
                assert(j != i);
                assert(r[j] == ss[j]);
                match find_service(ss, s) {
                    Some(k) => {
                        if k != j {
                            assert(ss[k].name == ss[j].name);
                            assert(false);
                        }
                    },
                    None => {
                        assert(ss[j].name == s);
                        assert(false);
                    },
                }
            },
            None => {
                match find_service(ss, s) {
                    Some(k) => {
                        assert(k != i);
                        assert(r[k] == ss[k]);
                        assert(false);
                    },
                    None => {},
                }
            },
        }
    }
}

proof fn lemma_threads_remove_all(sv: ServiceView, s: Seq<char>, p: Seq<char>, t: Seq<ConfigView>)
    ensures
        threads_after(remove_all(sv), s, p, t) == if sv.name == s && group_names(sv.groups).contains(p) {
            Seq::<ConfigView>::empty()
        } else {
            t
        },
    decreases sv.groups.len(),
{
    let names = group_names(sv.groups);
    if sv.groups.len() > 0 {
        let sv1 = ServiceView { name: sv.name, groups: sv.groups.drop_last() };
        lemma_threads_remove_all(sv1, s, p, t);
        assert(remove_all(sv).drop_last() =~= remove_all(sv1));
        let l = sv.groups.len() - 1;
        let names1 = group_names(sv1.groups);
        if names1.contains(p) {
            let i = choose|i: int| 0 <= i < names1.len() && names1[i] == p;
            assert(names[i] == p);
        }
        assert(names[l] == sv.groups[l].config.name);
        if names.contains(p) && sv.groups[l].config.name != p {
            let i = choose|i: int| 0 <= i < names.len() && names[i] == p;
            assert(names1[i] == p);
        }
    } else {
        assert(!names.contains(p));
    }
}

/// A service's threads are gone, or it had no group of the program anyway.
proof fn lemma_removed_service_threads(sv: ServiceView, s: Seq<char>, p: Seq<char>)
    requires
        sv.name == s,
    ensures
        threads_after(remove_all(sv), s, p, group_threads(sv.groups, p)) == Seq::<ConfigView>::empty(),
{
    lemma_threads_remove_all(sv, s, p, group_threads(sv.groups, p));
    if !group_names(sv.groups).contains(p) {
        assert forall|j: int| 0 <= j < sv.groups.len() implies sv.groups[j].config.name != p by {
            assert(group_names(sv.groups)[j] == sv.groups[j].config.name);
        }
        lemma_group_threads_none(sv.groups, p);
    }
}

proof fn lemma_drop_gone_threads(ss: Seq<ServiceView>, new: Seq<ServiceConfigView>)
    requires
        services_wf(ss),
    ensures
        forall|t: int| 0 <= t < drop_gone(ss, new).1.len() ==> running_names(ss).contains(act_service(
            #[trigger] drop_gone(ss, new).1[t],
        )),
        forall|s: Seq<char>, p: Seq<char>| threads_after(drop_gone(ss, new).1, s, p, table_threads(ss, s, p))
            == #[trigger] table_threads(drop_gone(ss, new).0, s, p),
    decreases ss.len(),
{
    if ss.len() == 0 {
        assert forall|s: Seq<char>, p: Seq<char>| threads_after(drop_gone(ss, new).1, s, p, table_threads(ss, s, p))
            == #[trigger] table_threads(drop_gone(ss, new).0, s, p) by {}
    } else {
        let pre = ss.drop_last();
        let sv = ss.last();
        let l = ss.len() - 1;
        assert(sv == ss[l]);
        assert(services_wf(pre)) by {
            assert forall|i: int| 0 <= i < pre.len() implies groups_wf(#[trigger] pre[i].groups) by {
                assert(pre[i] == ss[i]);
            }
            assert forall|i: int, j: int| 0 <= i < pre.len() && 0 <= j < pre.len() && i != j implies pre[i].name != pre[j].name by {
                assert(pre[i] == ss[i]);
                assert(pre[j] == ss[j]);
            }
        }
        lemma_drop_gone_threads(pre, new);
        let (k1, a1) = drop_gone(pre, new);
        let (k, a) = drop_gone(ss, new);
        assert(!running_names(pre).contains(sv.name)) by {
            if running_names(pre).contains(sv.name) {
                let i = choose|i: int| 0 <= i < running_names(pre).len() && running_names(pre)[i] == sv.name;
                assert(pre[i] == ss[i]);
            }
        }
        let kept = crate::tm_mod::supervisor::sc_names(new).contains(sv.name);
        assert forall|t: int| 0 <= t < a.len() implies running_names(ss).contains(act_service(#[trigger] a[t])) by {
            if t < a1.len() {
                assert(a[t] == a1[t]);
                let i = choose|i: int| 0 <= i < running_names(pre).len() && running_names(pre)[i] == act_service(a1[t]);
                assert(pre[i] == ss[i]);
                assert(running_names(ss)[i] == act_service(a[t]));
            } else {
                assert(!kept);
                assert(a == a1 + remove_all(sv));
                assert(a[t] == remove_all(sv)[t - a1.len()]);
                assert(running_names(ss)[l] == act_service(a[t]));
            }
        }
        assert forall|s: Seq<char>, p: Seq<char>| threads_after(a, s, p, table_threads(ss, s, p)) == #[trigger] table_threads(k, s, p) by {
            assert(ss =~= pre.push(sv));
            lemma_table_threads_push(pre, sv, s, p);
            assert(table_threads(k1, s, p) == threads_after(a1, s, p, table_threads(pre, s, p)));
            let t0 = table_threads(ss, s, p);
            lemma_empty_concat(table_threads(pre, s, p));
            lemma_empty_concat(table_threads(k1, s, p));
            if s == sv.name {
                assert forall|j: int| 0 <= j < pre.len() implies pre[j].name != s by {
                    assert(running_names(pre)[j] == pre[j].name);
                }
                lemma_table_threads_none(pre, s, p);
                lemma_empty_concat(group_threads(sv.groups, p));
                assert forall|t: int| 0 <= t < a1.len() implies !(act_service(#[trigger] a1[t]) == s && act_process(a1[t]) == p) by {}
                lemma_threads_untouched(a1, s, p, t0);
                lemma_threads_untouched(a1, s, p, Seq::<ConfigView>::empty());
                if kept {
                    lemma_table_threads_push(k1, sv, s, p);
                } else {
                    lemma_threads_concat(a1, remove_all(sv), s, p, t0);
                    lemma_removed_service_threads(sv, s, p);
                }
            } else {
                if kept {
                    lemma_table_threads_push(k1, sv, s, p);
                } else {
                    lemma_threads_concat(a1, remove_all(sv), s, p, t0);
                    lemma_threads_remove_all(sv, s, p, table_threads(k1, s, p));
                }
            }
        }
    }
}

proof fn lemma_add_services_threads(ss: Seq<ServiceView>, new: Seq<ServiceConfigView>)
    ensures
        forall|s: Seq<char>, p: Seq<char>| threads_after(add_services(ss, new).1, s, p, table_threads(ss, s, p))
            == #[trigger] table_threads(add_services(ss, new).0, s, p),
    decreases new.len(),
{
    if new.len() == 0 {
        assert forall|s: Seq<char>, p: Seq<char>| threads_after(add_services(ss, new).1, s, p, table_threads(ss, s, p))
            == #[trigger] table_threads(add_services(ss, new).0, s, p) by {}
    } else {
        lemma_add_services_threads(ss, new.drop_last());
        let (s1, a1, r1) = add_services(ss, new.drop_last());
        let sc = new.last();
        lemma_find_service(s1, sc.name);
        if find_service(s1, sc.name) is None {
            let e = Seq::<GroupView>::empty();
            lemma_launch_groups_threads(sc.name, e, sc.processes);
            let (gs, la) = launch_groups(sc.name, e, sc.processes);
            let sv = ServiceView { name: sc.name, groups: gs };
            let a = add_services(ss, new).1;
            assert(a == a1 + la);
            assert forall|s: Seq<char>, p: Seq<char>| threads_after(a, s, p, table_threads(ss, s, p))
                == #[trigger] table_threads(add_services(ss, new).0, s, p) by {
                lemma_threads_concat(a1, la, s, p, table_threads(ss, s, p));
                assert(table_threads(s1, s, p) == threads_after(a1, s, p, table_threads(ss, s, p)));
                lemma_table_threads_push(s1, sv, s, p);
                lemma_empty_concat(table_threads(s1, s, p));
                if s == sc.name {
                    lemma_table_threads_none(s1, s, p);
                    assert(group_threads(e, p) == Seq::<ConfigView>::empty());
                    assert(threads_after(la, s, p, group_threads(e, p)) == group_threads(gs, p));
                    lemma_empty_concat(group_threads(gs, p));
                } else {
                    lemma_threads_untouched(la, s, p, table_threads(s1, s, p));
                }
            }
        }
    }
}

proof fn lemma_update_services_threads(ss: Seq<ServiceView>, rem: Seq<ServiceConfigView>)
    requires
        services_wf(ss),
    ensures
        forall|s: Seq<char>, p: Seq<char>| threads_after(update_services(ss, rem).1, s, p, table_threads(ss, s, p))
            == #[trigger] table_threads(update_services(ss, rem).0, s, p),
    decreases rem.len(),
{
    if rem.len() == 0 {
        assert forall|s: Seq<char>, p: Seq<char>| threads_after(update_services(ss, rem).1, s, p, table_threads(ss, s, p))
            == #[trigger] table_threads(update_services(ss, rem).0, s, p) by {}
    } else {
        lemma_update_services_threads(ss, rem.drop_last());
        lemma_update_services_wf(ss, rem.drop_last());
        let (s1, a1) = update_services(ss, rem.drop_last());
        let sc = rem.last();
        lemma_find_service(s1, sc.name);
        match find_service(s1, sc.name) {
            Some(i) => {
                assert(groups_wf(s1[i].groups));
                lemma_service_reread_threads(s1[i].name, s1[i].groups, sc.processes);
                let (g, a, r) = service_reread(s1[i].name, s1[i].groups, sc.processes);
                let x = ServiceView { name: s1[i].name, groups: g };
                let all = update_services(ss, rem).1;
                assert(all == a1 + a);
                assert forall|s: Seq<char>, p: Seq<char>| threads_after(all, s, p, table_threads(ss, s, p))
                    == #[trigger] table_threads(update_services(ss, rem).0, s, p) by {
                    lemma_threads_concat(a1, a, s, p, table_threads(ss, s, p));
                    assert(table_threads(s1, s, p) == threads_after(a1, s, p, table_threads(ss, s, p)));
                    lemma_table_threads_update(s1, i, x, s, p);
                    if s == sc.name {
                        lemma_table_threads_of(s1, s, p);
                        assert(threads_after(a, s, p, group_threads(s1[i].groups, p)) == group_threads(g, p));
                    } else {
                        lemma_threads_untouched(a, s, p, table_threads(s1, s, p));
                    }
                }
            },
            None => {
                assert forall|s: Seq<char>, p: Seq<char>| threads_after(update_services(ss, rem).1, s, p, table_threads(ss, s, p))
                    == #[trigger] table_threads(update_services(ss, rem).0, s, p) by {
                    assert(table_threads(s1, s, p) == threads_after(a1, s, p, table_threads(ss, s, p)));
                }
            },
        }
    }
}

proof fn lemma_launch_service_threads(ss: Seq<ServiceView>, sc: ServiceConfigView)
    requires
        services_wf(ss),
    ensures
        forall|s: Seq<char>, p: Seq<char>| threads_after(launch_service(ss, sc).1, s, p, table_threads(ss, s, p))
            == #[trigger] table_threads(launch_service(ss, sc).0, s, p),
{
    let e = Seq::<GroupView>::empty();
    lemma_launch_groups_threads(sc.name, e, sc.processes);
    let (gs, la) = launch_groups(sc.name, e, sc.processes);
    let sv = ServiceView { name: sc.name, groups: gs };
    lemma_find_service(ss, sc.name);
    let (s2, a) = launch_service(ss, sc);
    assert forall|s: Seq<char>, p: Seq<char>| threads_after(a, s, p, table_threads(ss, s, p)) == #[trigger] table_threads(s2, s, p) by {
        let t0 = table_threads(ss, s, p);
        assert(group_threads(e, p) == Seq::<ConfigView>::empty());
        match find_service(ss, sc.name) {
            Some(i) => {
                let ra = remove_all(ss[i]);
                lemma_threads_concat(ra, la, s, p, t0);
                lemma_table_threads_update(ss, i, sv, s, p);
                if s == sc.name {
                    lemma_table_threads_of(ss, s, p);
                    lemma_removed_service_threads(ss[i], s, p);
                    assert(threads_after(la, s, p, group_threads(e, p)) == group_threads(gs, p));
                } else {
                    lemma_threads_remove_all(ss[i], s, p, t0);
                    lemma_threads_untouched(la, s, p, t0);
                }
            },
            None => {
                lemma_table_threads_push(ss, sv, s, p);
                lemma_empty_concat(t0);
                if s == sc.name {
                    lemma_table_threads_none(ss, s, p);
                    assert(threads_after(la, s, p, group_threads(e, p)) == group_threads(gs, p));
                    lemma_empty_concat(group_threads(gs, p));
                } else {
                    lemma_threads_untouched(la, s, p, t0);
                }
            },
        }
    }
}

proof fn lemma_launch_services_wf(ss: Seq<ServiceView>, scs: Seq<ServiceConfigView>)
    requires
        services_wf(ss),
    ensures
        services_wf(launch_services(ss, scs).0),
    decreases scs.len(),
{
    if scs.len() > 0 {
        lemma_launch_services_wf(ss, scs.drop_last());
        lemma_launch_service_wf(launch_services(ss, scs.drop_last()).0, scs.last());
    }
}

/// Launching the services hands the daemon the actions that take its threads
/// exactly to the table of services it then holds: every program of every
/// service ends with as many threads as the table gives it, each running the
/// configuration the table holds for it.
pub proof fn lemma_launch_actions_reach_table(ss: Seq<ServiceView>, scs: Seq<ServiceConfigView>)
    requires
        services_wf(ss),
    ensures
        forall|s: Seq<char>, p: Seq<char>| threads_after(launch_services(ss, scs).1, s, p, table_threads(ss, s, p))
            == #[trigger] table_threads(launch_services(ss, scs).0, s, p),
    decreases scs.len(),
{
    if scs.len() == 0 {
        assert forall|s: Seq<char>, p: Seq<char>| threads_after(launch_services(ss, scs).1, s, p, table_threads(ss, s, p))
            == #[trigger] table_threads(launch_services(ss, scs).0, s, p) by {}
    } else {
        lemma_launch_actions_reach_table(ss, scs.drop_last());
        let (s1, a1) = launch_services(ss, scs.drop_last());
        lemma_launch_services_wf(ss, scs.drop_last());
        lemma_launch_service_threads(s1, scs.last());
        let (s2, a2) = launch_service(s1, scs.last());
        assert forall|s: Seq<char>, p: Seq<char>| threads_after(launch_services(ss, scs).1, s, p, table_threads(ss, s, p))
            == #[trigger] table_threads(launch_services(ss, scs).0, s, p) by {
            lemma_threads_concat(a1, a2, s, p, table_threads(ss, s, p));
            assert(table_threads(s1, s, p) == threads_after(a1, s, p, table_threads(ss, s, p)));
            assert(threads_after(a2, s, p, table_threads(s1, s, p)) == table_threads(s2, s, p));
        }
    }
}

/// Reading the configuration anew hands the daemon the actions that take its
/// threads exactly to the new table of services: every program of every
/// service ends with as many threads as the new table gives it, each running
/// the configuration the new table holds for it, and a program or a service
/// no longer configured with none.
pub proof fn lemma_reread_actions_reach_table(ss: Seq<ServiceView>, new: Seq<ServiceConfigView>)
    requires
        services_wf(ss),
    ensures
        forall|s: Seq<char>, p: Seq<char>| threads_after(tm_reread(ss, new).1, s, p, table_threads(ss, s, p))
            == #[trigger] table_threads(tm_reread(ss, new).0, s, p),
{
    lemma_drop_gone_threads(ss, new);
    lemma_drop_gone_wf(ss, new);
    let (k, a1) = drop_gone(ss, new);
    lemma_add_services_threads(k, new);
    lemma_add_services_wf(k, new);
    let (s2, a2, rem) = add_services(k, new);
    lemma_update_services_threads(s2, rem);
    let (s3, a3) = update_services(s2, rem);
    assert forall|s: Seq<char>, p: Seq<char>| threads_after(tm_reread(ss, new).1, s, p, table_threads(ss, s, p))
        == #[trigger] table_threads(tm_reread(ss, new).0, s, p) by {
        let t0 = table_threads(ss, s, p);
        lemma_threads_concat(a1 + a2, a3, s, p, t0);
        lemma_threads_concat(a1, a2, s, p, t0);
        assert(table_threads(k, s, p) == threads_after(a1, s, p, t0));
        assert(table_threads(s2, s, p) == threads_after(a2, s, p, table_threads(k, s, p)));
        assert(table_threads(s3, s, p) == threads_after(a3, s, p, table_threads(s2, s, p)));
    }
}

proof fn lemma_remove_every_threads(ss: Seq<ServiceView>)
    requires
        services_wf(ss),
    ensures
        forall|t: int| 0 <= t < remove_every(ss).len() ==> running_names(ss).contains(act_service(#[trigger] remove_every(ss)[t])),
        forall|s: Seq<char>, p: Seq<char>| #[trigger] threads_after(remove_every(ss), s, p, table_threads(ss, s, p))
            == Seq::<ConfigView>::empty(),
    decreases ss.len(),
{
    if ss.len() == 0 {
        assert forall|s: Seq<char>, p: Seq<char>| #[trigger] threads_after(remove_every(ss), s, p, table_threads(ss, s, p))
            == Seq::<ConfigView>::empty() by {}
    } else {
        let pre = ss.drop_last();
        let sv = ss.last();
        let l = ss.len() - 1;
        assert(sv == ss[l]);
        assert(services_wf(pre)) by {
            assert forall|i: int| 0 <= i < pre.len() implies groups_wf(#[trigger] pre[i].groups) by {
                assert(pre[i] == ss[i]);
            }
            assert forall|i: int, j: int| 0 <= i < pre.len() && 0 <= j < pre.len() && i != j implies pre[i].name != pre[j].name by {
                assert(pre[i] == ss[i]);
                assert(pre[j] == ss[j]);
            }
        }
        lemma_remove_every_threads(pre);
        let a1 = remove_every(pre);
        let a = remove_every(ss);
        assert(a == a1 + remove_all(sv));
        assert(!running_names(pre).contains(sv.name)) by {
            if running_names(pre).contains(sv.name) {
                let i = choose|i: int| 0 <= i < running_names(pre).len() && running_names(pre)[i] == sv.name;
                assert(pre[i] == ss[i]);
            }
        }
        assert forall|t: int| 0 <= t < a.len() implies running_names(ss).contains(act_service(#[trigger] a[t])) by {
            if t < a1.len() {
                assert(a[t] == a1[t]);
                let i = choose|i: int| 0 <= i < running_names(pre).len() && running_names(pre)[i] == act_service(a1[t]);
                assert(pre[i] == ss[i]);
                assert(running_names(ss)[i] == act_service(a[t]));
            } else {
                assert(a[t] == remove_all(sv)[t - a1.len()]);
                assert(running_names(ss)[l] == act_service(a[t]));
            }
        }
        assert forall|s: Seq<char>, p: Seq<char>| #[trigger] threads_after(a, s, p, table_threads(ss, s, p))
            == Seq::<ConfigView>::empty() by {
            assert(ss =~= pre.push(sv));
            lemma_table_threads_push(pre, sv, s, p);
            let t0 = table_threads(ss, s, p);
            lemma_threads_concat(a1, remove_all(sv), s, p, t0);
            lemma_empty_concat(table_threads(pre, s, p));
            if s == sv.name {
                assert forall|j: int| 0 <= j < pre.len() implies pre[j].name != s by {
                    assert(running_names(pre)[j] == pre[j].name);
                }
                lemma_table_threads_none(pre, s, p);
                lemma_empty_concat(group_threads(sv.groups, p));
                assert forall|t: int| 0 <= t < a1.len() implies !(act_service(#[trigger] a1[t]) == s && act_process(a1[t]) == p) by {}
                lemma_threads_untouched(a1, s, p, t0);
                lemma_removed_service_threads(sv, s, p);
            } else {
                assert(threads_after(a1, s, p, table_threads(pre, s, p)) == Seq::<ConfigView>::empty());
                lemma_threads_remove_all(sv, s, p, Seq::<ConfigView>::empty());
            }
        }
    }
}

/// Restarting on a configuration hands the daemon the actions that stop every
/// thread and then start exactly what the configuration describes: every
/// program of every service ends with as many threads as the new table gives
/// it, each running the configuration the table holds for it; and when the
/// configuration can be read, the new table runs exactly what it holds.
pub proof fn lemma_reload_actions_reach_table(ss: Seq<ServiceView>, new: Seq<ServiceConfigView>)
    requires
        services_wf(ss),
    ensures
        forall|s: Seq<char>, p: Seq<char>| threads_after(tm_reload(ss, new).1, s, p, table_threads(ss, s, p))
            == #[trigger] table_threads(tm_reload(ss, new).0, s, p),
        service_configs_distinct(new) ==> services_match(tm_reload(ss, new).0, new),
{
    lemma_remove_every_threads(ss);
    let e = Seq::<ServiceView>::empty();
    lemma_launch_actions_reach_table(e, new);
    let (s2, la) = launch_services(e, new);
    assert forall|s: Seq<char>, p: Seq<char>| threads_after(tm_reload(ss, new).1, s, p, table_threads(ss, s, p))
        == #[trigger] table_threads(tm_reload(ss, new).0, s, p) by {
        lemma_threads_concat(remove_every(ss), la, s, p, table_threads(ss, s, p));
        assert(threads_after(remove_every(ss), s, p, table_threads(ss, s, p)) == Seq::<ConfigView>::empty());
        assert(table_threads(e, s, p) == Seq::<ConfigView>::empty());
        assert(threads_after(la, s, p, table_threads(e, s, p)) == table_threads(s2, s, p));
    }
    if service_configs_distinct(new) {
        lemma_launch_matches(new);
    }
}

} // verus!
