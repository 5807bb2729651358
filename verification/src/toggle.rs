//! The toggle cycle: every run hides the visible applications or brings back
//! the ones an earlier run hid, and the state saved between runs records which.
use crate::apps::{Action, AppInfo};
use crate::mode::{opposite, ToggleMode};
use crate::pids::{group_of, in_group, with_pid, without_pid, HiddenState, PidTable};
use vstd::prelude::*;

verus! {

/// Whether a run in `mode`, with the groups `m`, acts on `app`: it leaves alone
/// what was hidden before the cycle began, hides what is visible in Hide mode,
/// and unhides what is hidden in Show mode.
pub open spec fn acts_on(mode: ToggleMode, m: Map<HiddenState, Set<usize>>, app: AppInfo) -> bool {
    &&& !in_group(m, HiddenState::AlreadyHidden, app.pid)
    &&& match mode {
        ToggleMode::Hide => !app.is_hidden,
        ToggleMode::Show => app.is_hidden,
    }
}

/// The request a run in `mode` makes for the application at position `i`.
pub open spec fn action_for(mode: ToggleMode, i: int) -> Action {
    match mode {
        ToggleMode::Hide => Action::Hide(i as usize),
        ToggleMode::Show => Action::Unhide(i as usize),
    }
}

/// The requests of a run in `mode` over `apps`, in the order of the list.
pub open spec fn planned_actions(
    mode: ToggleMode,
    m: Map<HiddenState, Set<usize>>,
    apps: Seq<AppInfo>,
) -> Seq<Action>
    decreases apps.len(),
{
    if apps.len() == 0 {
        seq![]
    } else {
        let prev = planned_actions(mode, m, apps.drop_last());
        if acts_on(mode, m, apps.last()) {
            prev.push(action_for(mode, apps.len() - 1))
        } else {
            prev
        }
    }
}

/// Whether some application of `apps` is acted on.
pub open spec fn acts_on_some(mode: ToggleMode, m: Map<HiddenState, Set<usize>>, apps: Seq<AppInfo>) -> bool {
    exists|i: int| 0 <= i < apps.len() && acts_on(mode, m, #[trigger] apps[i])
}

/// The process ids of the applications acted on.
pub open spec fn acted_pids(mode: ToggleMode, m: Map<HiddenState, Set<usize>>, apps: Seq<AppInfo>) -> Set<
    usize,
> {
    Set::new(|p: usize| exists|i: int| 0 <= i < apps.len() && #[trigger] apps[i].pid == p && acts_on(mode, m, apps[i]))
}

/// The groups after a run in `mode` over `apps`: in Hide mode the pids hidden
/// join the Hidden group (which comes into being if something is hidden); in
/// Show mode the pids unhidden leave the Hidden group, where there is one.
pub open spec fn planned_table(
    mode: ToggleMode,
    m: Map<HiddenState, Set<usize>>,
    apps: Seq<AppInfo>,
) -> Map<HiddenState, Set<usize>> {
    match mode {
        ToggleMode::Hide => if acts_on_some(mode, m, apps) {
            m.insert(HiddenState::Hidden, group_of(m, HiddenState::Hidden).union(acted_pids(mode, m, apps)))
        } else {
            m
        },
        ToggleMode::Show => if m.dom().contains(HiddenState::Hidden) {
            m.insert(HiddenState::Hidden, m[HiddenState::Hidden].difference(acted_pids(mode, m, apps)))
        } else {
            m
        },
    }
}

/// Whether some application of `apps` is hidden.
pub open spec fn some_hidden(apps: Seq<AppInfo>) -> bool {
    exists|i: int| 0 <= i < apps.len() && (#[trigger] apps[i]).is_hidden
}

/// The process ids of the hidden applications of `apps`.
pub open spec fn hidden_pids(apps: Seq<AppInfo>) -> Set<usize> {
    Set::new(|p: usize| exists|i: int| 0 <= i < apps.len() && #[trigger] apps[i].pid == p && apps[i].is_hidden)
}

/// The groups after noting, in Hide mode, the applications hidden already.
pub open spec fn recorded_table(
    mode: ToggleMode,
    m: Map<HiddenState, Set<usize>>,
    apps: Seq<AppInfo>,
) -> Map<HiddenState, Set<usize>> {
    if mode == ToggleMode::Hide && some_hidden(apps) {
        m.insert(HiddenState::AlreadyHidden, group_of(m, HiddenState::AlreadyHidden).union(hidden_pids(apps)))
    } else {
        m
    }
}

/// The state kept between two runs.
pub struct AppState {
    /// The mode of the run that saved (or, once restored, runs with) this state.
    pub mode: ToggleMode,
    /// The process ids of each group.
    pub pids: PidTable,
}

impl AppState {
    /// The state of a first run: Hide mode, no group.
    pub fn new() -> (s: AppState)
        ensures
            s.mode == ToggleMode::Hide,
            s.pids@ == Map::<HiddenState, Set<usize>>::empty(),
    {
        AppState { mode: ToggleMode::Hide, pids: PidTable::new() }
    }

    /// The state a run works with: a fresh one where nothing was saved, or the
    /// saved one with its mode switched, since a run does the opposite of the
    /// run that saved.
    pub fn restore(saved: Option<AppState>) -> (s: AppState)
        ensures
            match saved {
                None => s.mode == ToggleMode::Hide && s.pids@ == Map::<HiddenState, Set<usize>>::empty(),
                Some(old_state) => s.mode == opposite(old_state.mode) && s.pids@ == old_state.pids@,
            },
    {
        match saved {
            None => AppState::new(),
            Some(old_state) => {
                let mode = old_state.mode.toggle();
                AppState { mode, pids: old_state.pids }
            },
        }
    }

    /// In Hide mode, notes every hidden application of `apps` in the
    /// AlreadyHidden group, so that the cycle leaves it alone; in Show mode
    /// does nothing.
    pub fn note_already_hidden(&mut self, apps: &Vec<AppInfo>)
        ensures
            final(self).mode == old(self).mode,
            final(self).pids@ == recorded_table(old(self).mode, old(self).pids@, apps@),
    {
        if self.mode == ToggleMode::Hide {
            let ghost m0 = self.pids@;
            let n = apps.len();
            for i in 0..n
                invariant
                    n == apps.len(),
                    self.mode == ToggleMode::Hide,
                    self.pids@ == recorded_table(ToggleMode::Hide, m0, apps@.take(i as int)),
            {
                let ghost before = self.pids@;
                assert(apps@.take(i as int).push(apps@[i as int]) =~= apps@.take(i + 1));
                if apps[i].is_hidden {
                    self.pids.insert(HiddenState::AlreadyHidden, apps[i].pid);
                    assert(hidden_pids(apps@.take(i + 1)) =~= hidden_pids(apps@.take(i as int)).insert(apps[i as int].pid)) by {
                        let t = apps@.take(i + 1);
                        assert(t[i as int] == apps@[i as int]);
                    }
                    assert(some_hidden(apps@.take(i + 1))) by {
                        assert(apps@.take(i + 1)[i as int] == apps@[i as int]);
                    }
                    let ghost g = group_of(m0, HiddenState::AlreadyHidden);
                    assert(g.union(hidden_pids(apps@.take(i as int))).insert(apps[i as int].pid)
                        =~= g.union(hidden_pids(apps@.take(i + 1))));
                    proof {
                        if !some_hidden(apps@.take(i as int)) {
                            assert(hidden_pids(apps@.take(i as int)) =~= Set::empty());
                            assert(before == m0);
                            assert(g.insert(apps[i as int].pid) =~= g.union(hidden_pids(apps@.take(i + 1))));
                        } else {
                            assert(group_of(before, HiddenState::AlreadyHidden) == g.union(hidden_pids(apps@.take(i as int))));
                        }
                    }
                    assert(self.pids@ =~= recorded_table(ToggleMode::Hide, m0, apps@.take(i + 1)));
                } else {
                    assert(hidden_pids(apps@.take(i + 1)) =~= hidden_pids(apps@.take(i as int)));
                    assert(some_hidden(apps@.take(i + 1)) == some_hidden(apps@.take(i as int)));
                }
            }
            assert(apps@.take(n as int) =~= apps@);
        }
    }

    /// Decides what this run does with each application of `apps`, in the
    /// order of the list, and records it: an application hidden before the
    /// cycle began is left alone; in Hide mode each visible one is hidden and
    /// joins the Hidden group; in Show mode each hidden one is unhidden and
    /// leaves the Hidden group.
    pub fn plan(&mut self, apps: &Vec<AppInfo>) -> (actions: Vec<Action>)
        ensures
            final(self).mode == old(self).mode,
            final(self).pids@ == planned_table(old(self).mode, old(self).pids@, apps@),
            actions@ == planned_actions(old(self).mode, old(self).pids@, apps@),
    {
        let ghost m0 = self.pids@;
        let mode = self.mode;
        let mut actions: Vec<Action> = Vec::new();
        let n = apps.len();
        assert(apps@.take(0) =~= Seq::<AppInfo>::empty());
        assert(acted_pids(mode, m0, apps@.take(0)) =~= Set::empty());
        proof {
            if m0.dom().contains(HiddenState::Hidden) {
                assert(m0[HiddenState::Hidden].difference(Set::empty()) =~= m0[HiddenState::Hidden]);
                assert(m0.insert(HiddenState::Hidden, m0[HiddenState::Hidden]) =~= m0);
            }
        }
        for i in 0..n
            invariant
                n == apps.len(),
                self.mode == mode,
                self.pids@ == planned_table(mode, m0, apps@.take(i as int)),
                actions@ == planned_actions(mode, m0, apps@.take(i as int)),
        {
            let pid = apps[i].pid;
            let skip = self.pids.contains(HiddenState::AlreadyHidden, pid);
            assert(skip == in_group(m0, HiddenState::AlreadyHidden, pid));
            if !skip {
                match mode {
                    ToggleMode::Hide => {
                        if !apps[i].is_hidden {
                            actions.push(Action::Hide(i));
                            self.pids.insert(HiddenState::Hidden, pid);
                            proof { lemma_hide_step(m0, apps@, i as int); }
                        } else {
                            proof { lemma_plan_idle_step(mode, m0, apps@, i as int); }
                        }
                    },
                    ToggleMode::Show => {
                        if apps[i].is_hidden {
                            actions.push(Action::Unhide(i));
                            self.pids.remove(HiddenState::Hidden, pid);
                            proof { lemma_show_step(m0, apps@, i as int); }
                        } else {
                            proof { lemma_plan_idle_step(mode, m0, apps@, i as int); }
                        }
                    },
                }
            } else {
                proof { lemma_plan_idle_step(mode, m0, apps@, i as int); }
            }
        }
        assert(apps@.take(n as int) =~= apps@);
        actions
    }
}

proof fn lemma_acted_prefix(mode: ToggleMode, m0: Map<HiddenState, Set<usize>>, apps: Seq<AppInfo>, i: int)
    requires
        0 <= i < apps.len(),
    ensures
        acted_pids(mode, m0, apps.take(i + 1)) == (if acts_on(mode, m0, apps[i]) {
            acted_pids(mode, m0, apps.take(i)).insert(apps[i].pid)
        } else {
            acted_pids(mode, m0, apps.take(i))
        }),
        acts_on_some(mode, m0, apps.take(i + 1)) == (acts_on_some(mode, m0, apps.take(i)) || acts_on(mode, m0, apps[i])),
        apps.take(i + 1).drop_last() == apps.take(i),
        apps.take(i + 1).last() == apps[i],
{
    let next = apps.take(i + 1);
    let prefix = apps.take(i);
    assert(next.drop_last() =~= prefix);
    assert(next[i] == apps[i]);
    if acts_on(mode, m0, apps[i]) {
        assert(acted_pids(mode, m0, next) =~= acted_pids(mode, m0, prefix).insert(apps[i].pid));
    } else {
        assert(acted_pids(mode, m0, next) =~= acted_pids(mode, m0, prefix));
    }
    if acts_on_some(mode, m0, next) && !acts_on(mode, m0, apps[i]) {
        let j = choose|j: int| 0 <= j < next.len() && acts_on(mode, m0, #[trigger] next[j]);
        assert(prefix[j] == next[j]);
    }
    if acts_on_some(mode, m0, prefix) {
        let j = choose|j: int| 0 <= j < prefix.len() && acts_on(mode, m0, #[trigger] prefix[j]);
        assert(prefix[j] == next[j]);
    }
}

proof fn lemma_plan_idle_step(mode: ToggleMode, m0: Map<HiddenState, Set<usize>>, apps: Seq<AppInfo>, i: int)
    requires
        0 <= i < apps.len(),
        !acts_on(mode, m0, apps[i]),
    ensures
        planned_table(mode, m0, apps.take(i + 1)) == planned_table(mode, m0, apps.take(i)),
        planned_actions(mode, m0, apps.take(i + 1)) == planned_actions(mode, m0, apps.take(i)),
{
    lemma_acted_prefix(mode, m0, apps, i);
}

proof fn lemma_hide_step(m0: Map<HiddenState, Set<usize>>, apps: Seq<AppInfo>, i: int)
    requires
        0 <= i < apps.len(),
        acts_on(ToggleMode::Hide, m0, apps[i]),
    ensures
        planned_table(ToggleMode::Hide, m0, apps.take(i + 1)) == with_pid(
            planned_table(ToggleMode::Hide, m0, apps.take(i)),
            HiddenState::Hidden,
            apps[i].pid,
        ),
        planned_actions(ToggleMode::Hide, m0, apps.take(i + 1)) == planned_actions(
            ToggleMode::Hide,
            m0,
            apps.take(i),
        ).push(Action::Hide(i as usize)),
{
    let mode = ToggleMode::Hide;
    lemma_acted_prefix(mode, m0, apps, i);
    let g = group_of(m0, HiddenState::Hidden);
    let a = acted_pids(mode, m0, apps.take(i));
    if !acts_on_some(mode, m0, apps.take(i)) {
        assert(a =~= Set::empty());
        assert(g.union(a).insert(apps[i].pid) =~= g.insert(apps[i].pid));
    }
    assert(g.union(a).insert(apps[i].pid) =~= g.union(a.insert(apps[i].pid)));
    assert(planned_table(mode, m0, apps.take(i + 1)) =~= with_pid(
        planned_table(mode, m0, apps.take(i)),
        HiddenState::Hidden,
        apps[i].pid,
    ));
}

proof fn lemma_show_step(m0: Map<HiddenState, Set<usize>>, apps: Seq<AppInfo>, i: int)
    requires
        0 <= i < apps.len(),
        acts_on(ToggleMode::Show, m0, apps[i]),
    ensures
        planned_table(ToggleMode::Show, m0, apps.take(i + 1)) == without_pid(
            planned_table(ToggleMode::Show, m0, apps.take(i)),
            HiddenState::Hidden,
            apps[i].pid,
        ),
        planned_actions(ToggleMode::Show, m0, apps.take(i + 1)) == planned_actions(
            ToggleMode::Show,
            m0,
            apps.take(i),
        ).push(Action::Unhide(i as usize)),
{
    let mode = ToggleMode::Show;
    lemma_acted_prefix(mode, m0, apps, i);
    if m0.dom().contains(HiddenState::Hidden) {
        let a = acted_pids(mode, m0, apps.take(i));
        assert(m0[HiddenState::Hidden].difference(a).remove(apps[i].pid) =~= m0[HiddenState::Hidden].difference(
            a.insert(apps[i].pid),
        ));
    }
    assert(planned_table(mode, m0, apps.take(i + 1)) =~= without_pid(
        planned_table(mode, m0, apps.take(i)),
        HiddenState::Hidden,
        apps[i].pid,
    ));
}

/// Each request of a run in Hide mode turned into the unhiding of the same position.
pub open spec fn as_unhides(actions: Seq<Action>) -> Seq<Action> {
    actions.map_values(
        |a: Action|
            match a {
                Action::Hide(i) => Action::Unhide(i),
                Action::Unhide(i) => Action::Unhide(i),
            },
    )
}

/// A run asks for the request of its mode at position `i` exactly when it acts
/// on the application there, and asks for nothing else.
pub proof fn lemma_planned_actions_members(mode: ToggleMode, m: Map<HiddenState, Set<usize>>, apps: Seq<AppInfo>)
    requires
        apps.len() <= usize::MAX,
    ensures
        forall|i: int|
            0 <= i < apps.len() ==> (planned_actions(mode, m, apps).contains(#[trigger] action_for(mode, i))
                <==> acts_on(mode, m, apps[i])),
        forall|a: Action|
            #[trigger] planned_actions(mode, m, apps).contains(a) ==> exists|i: int|
                0 <= i < apps.len() && a == action_for(mode, i) && acts_on(mode, m, #[trigger] apps[i]),
    decreases apps.len(),
{
    if apps.len() > 0 {
        let prev = apps.drop_last();
        lemma_planned_actions_members(mode, m, prev);
        let last = apps.len() - 1;
        let p = planned_actions(mode, m, prev);
        assert forall|i: int| 0 <= i < apps.len() implies (planned_actions(mode, m, apps).contains(
            #[trigger] action_for(mode, i),
        ) <==> acts_on(mode, m, apps[i])) by {
            if i < last {
                assert(prev[i] == apps[i]);
                assert(action_for(mode, i) != action_for(mode, last));
                if planned_actions(mode, m, apps).contains(action_for(mode, i)) {
                    let k = choose|k: int| 0 <= k < planned_actions(mode, m, apps).len()
                        && planned_actions(mode, m, apps)[k] == action_for(mode, i);
                    if k < p.len() {
                        assert(p[k] == action_for(mode, i));
                    }
                }
                if acts_on(mode, m, apps[i]) {
                    let k = choose|k: int| 0 <= k < p.len() && p[k] == action_for(mode, i);
                    assert(planned_actions(mode, m, apps)[k] == action_for(mode, i));
                }
            } else {
                if acts_on(mode, m, apps[i]) {
                    assert(planned_actions(mode, m, apps).last() == action_for(mode, i));
                } else {
                    if p.contains(action_for(mode, i)) {
                        let j = choose|j: int| 0 <= j < prev.len() && action_for(mode, i) == action_for(mode, j)
                            && acts_on(mode, m, #[trigger] prev[j]);
                        assert(j == i);
                    }
                }
            }
        }
        assert forall|a: Action| #[trigger] planned_actions(mode, m, apps).contains(a) implies exists|i: int|
            0 <= i < apps.len() && a == action_for(mode, i) && acts_on(mode, m, #[trigger] apps[i]) by {
            let k = choose|k: int| 0 <= k < planned_actions(mode, m, apps).len() && planned_actions(mode, m, apps)[k] == a;
            if k < p.len() {
                assert(p[k] == a);
                assert(p.contains(a));
                let j = choose|j: int| 0 <= j < prev.len() && a == action_for(mode, j) && acts_on(mode, m, #[trigger] prev[j]);
                assert(prev[j] == apps[j]);
            } else {
                assert(apps[last] == apps.last());
            }
        }
    }
}

proof fn lemma_plans_match(m_show: Map<HiddenState, Set<usize>>, after: Seq<AppInfo>, m_hide: Map<HiddenState, Set<usize>>, before: Seq<AppInfo>)
    requires
        after.len() == before.len(),
        forall|i: int| 0 <= i < before.len() ==> acts_on(ToggleMode::Show, m_show, #[trigger] after[i])
            == acts_on(ToggleMode::Hide, m_hide, before[i]),
    ensures
        planned_actions(ToggleMode::Show, m_show, after) == as_unhides(planned_actions(ToggleMode::Hide, m_hide, before)),
    decreases before.len(),
{
    if before.len() > 0 {
        let a = after.drop_last();
        let b = before.drop_last();
        assert forall|i: int| 0 <= i < b.len() implies acts_on(ToggleMode::Show, m_show, #[trigger] a[i])
            == acts_on(ToggleMode::Hide, m_hide, b[i]) by {
            assert(a[i] == after[i]);
            assert(b[i] == before[i]);
        }
        lemma_plans_match(m_show, a, m_hide, b);
        let last = before.len() - 1;
        assert(acts_on(ToggleMode::Show, m_show, after[last]) == acts_on(ToggleMode::Hide, m_hide, before[last]));
        let hp = planned_actions(ToggleMode::Hide, m_hide, b);
        assert(as_unhides(hp.push(Action::Hide(last as usize))) =~= as_unhides(hp).push(Action::Unhide(last as usize)));
    }
}

/// Show undoes Hide. Take a run in Hide mode that starts from the groups `m0`
/// and sees the applications `before` (it notes the hidden ones, then plans),
/// and suppose that afterwards exactly the applications it asked to hide have
/// become hidden (`after`, the same processes in the same order). Then the
/// next run, in Show mode from the groups the first one left, asks to unhide
/// exactly the applications the first run hid, in the same order, and takes
/// all of their process ids out of the Hidden group.
pub proof fn lemma_show_undoes_hide(m0: Map<HiddenState, Set<usize>>, before: Seq<AppInfo>, after: Seq<AppInfo>)
    requires
        before.len() <= usize::MAX,
        after.len() == before.len(),
        forall|i: int| 0 <= i < before.len() ==> (#[trigger] after[i]).pid == before[i].pid,
        forall|i: int|
            0 <= i < before.len() ==> (#[trigger] after[i]).is_hidden == (before[i].is_hidden
                || planned_actions(ToggleMode::Hide, recorded_table(ToggleMode::Hide, m0, before), before).contains(
                Action::Hide(i as usize),
            )),
    ensures
        ({
            let m1 = recorded_table(ToggleMode::Hide, m0, before);
            let hidden_now = planned_actions(ToggleMode::Hide, m1, before);
            let m2 = recorded_table(ToggleMode::Show, planned_table(ToggleMode::Hide, m1, before), after);
            &&& planned_actions(ToggleMode::Show, m2, after) == as_unhides(hidden_now)
            &&& forall|i: int|
                0 <= i < before.len() && hidden_now.contains(Action::Hide(i as usize)) ==> !in_group(
                    #[trigger] planned_table(ToggleMode::Show, m2, after),
                    HiddenState::Hidden,
                    before[i].pid,
                )
        }),
{
    let m1 = recorded_table(ToggleMode::Hide, m0, before);
    let hidden_now = planned_actions(ToggleMode::Hide, m1, before);
    let m2 = recorded_table(ToggleMode::Show, planned_table(ToggleMode::Hide, m1, before), after);
    lemma_planned_actions_members(ToggleMode::Hide, m1, before);
    assert forall|i: int| 0 <= i < before.len() implies acts_on(ToggleMode::Show, m2, #[trigger] after[i])
        == acts_on(ToggleMode::Hide, m1, before[i]) by {
        assert(action_for(ToggleMode::Hide, i) == Action::Hide(i as usize));
        assert(in_group(m2, HiddenState::AlreadyHidden, after[i].pid) == in_group(
            m1,
            HiddenState::AlreadyHidden,
            before[i].pid,
        ));
        if before[i].is_hidden {
            assert(some_hidden(before));
            assert(hidden_pids(before).contains(before[i].pid));
        }
    }
    lemma_plans_match(m2, after, m1, before);
    assert forall|i: int|
        0 <= i < before.len() && hidden_now.contains(Action::Hide(i as usize)) implies !in_group(
        #[trigger] planned_table(ToggleMode::Show, m2, after),
        HiddenState::Hidden,
        before[i].pid,
    ) by {
        assert(action_for(ToggleMode::Hide, i) == Action::Hide(i as usize));
        assert(acts_on(ToggleMode::Hide, m1, before[i]));
        assert(acts_on_some(ToggleMode::Hide, m1, before));
        assert(acts_on(ToggleMode::Show, m2, after[i]));
        assert(acted_pids(ToggleMode::Show, m2, after).contains(before[i].pid));
    }
}

/// What a Hide run asks for and records, over all inputs: it asks to hide the
/// application at position `i` exactly when that application is visible and
/// its pid is not in the AlreadyHidden group, whatever the Hidden group holds;
/// it asks for nothing else; and afterwards a pid is in the Hidden group
/// exactly when it was before or it is the pid of an application so hidden.
pub proof fn lemma_hide_run(m: Map<HiddenState, Set<usize>>, apps: Seq<AppInfo>)
    requires
        apps.len() <= usize::MAX,
    ensures
        forall|i: int|
            0 <= i < apps.len() ==> (planned_actions(ToggleMode::Hide, m, apps).contains(Action::Hide(i as usize))
                <==> (!in_group(m, HiddenState::AlreadyHidden, (#[trigger] apps[i]).pid) && !apps[i].is_hidden)),
        forall|a: Action|
            #[trigger] planned_actions(ToggleMode::Hide, m, apps).contains(a) ==> exists|i: int|
                0 <= i < apps.len() && a == Action::Hide(i as usize) && !in_group(
                    m,
                    HiddenState::AlreadyHidden,
                    (#[trigger] apps[i]).pid,
                ) && !apps[i].is_hidden,
        forall|p: usize|
            #[trigger] in_group(planned_table(ToggleMode::Hide, m, apps), HiddenState::Hidden, p) <==> (in_group(
                m,
                HiddenState::Hidden,
                p,
            ) || exists|i: int|
                0 <= i < apps.len() && (#[trigger] apps[i]).pid == p && !in_group(m, HiddenState::AlreadyHidden, p)
                    && !apps[i].is_hidden),
        forall|p: usize|
            #[trigger] in_group(planned_table(ToggleMode::Hide, m, apps), HiddenState::AlreadyHidden, p) == in_group(
                m,
                HiddenState::AlreadyHidden,
                p,
            ),
{
    lemma_planned_actions_members(ToggleMode::Hide, m, apps);
    assert forall|i: int| 0 <= i < apps.len() implies (planned_actions(ToggleMode::Hide, m, apps).contains(
        Action::Hide(i as usize),
    ) <==> (!in_group(m, HiddenState::AlreadyHidden, (#[trigger] apps[i]).pid) && !apps[i].is_hidden)) by {
        assert(action_for(ToggleMode::Hide, i) == Action::Hide(i as usize));
    }
    assert forall|p: usize|
        #[trigger] in_group(planned_table(ToggleMode::Hide, m, apps), HiddenState::Hidden, p) <==> (in_group(
            m,
            HiddenState::Hidden,
            p,
        ) || exists|i: int|
            0 <= i < apps.len() && (#[trigger] apps[i]).pid == p && !in_group(m, HiddenState::AlreadyHidden, p)
                && !apps[i].is_hidden) by {
        if exists|i: int|
            0 <= i < apps.len() && (#[trigger] apps[i]).pid == p && !in_group(m, HiddenState::AlreadyHidden, p)
                && !apps[i].is_hidden {
            let i = choose|i: int|
                0 <= i < apps.len() && (#[trigger] apps[i]).pid == p && !in_group(m, HiddenState::AlreadyHidden, p)
                    && !apps[i].is_hidden;
            assert(acts_on(ToggleMode::Hide, m, apps[i]));
            assert(acts_on_some(ToggleMode::Hide, m, apps));
            assert(acted_pids(ToggleMode::Hide, m, apps).contains(p));
        }
    }
}

/// What a Show run asks for and records, over all inputs: it asks to unhide
/// the application at position `i` exactly when that application is hidden and
/// its pid is not in the AlreadyHidden group; it asks for nothing else; and
/// afterwards a pid is in the Hidden group exactly when it was before and it
/// is not the pid of an application so unhidden.
pub proof fn lemma_show_run(m: Map<HiddenState, Set<usize>>, apps: Seq<AppInfo>)
    requires
        apps.len() <= usize::MAX,
    ensures
        forall|i: int|
            0 <= i < apps.len() ==> (planned_actions(ToggleMode::Show, m, apps).contains(Action::Unhide(i as usize))
                <==> (!in_group(m, HiddenState::AlreadyHidden, (#[trigger] apps[i]).pid) && apps[i].is_hidden)),
        forall|a: Action|
            #[trigger] planned_actions(ToggleMode::Show, m, apps).contains(a) ==> exists|i: int|
                0 <= i < apps.len() && a == Action::Unhide(i as usize) && !in_group(
                    m,
                    HiddenState::AlreadyHidden,
                    (#[trigger] apps[i]).pid,
                ) && apps[i].is_hidden,
        forall|p: usize|
            #[trigger] in_group(planned_table(ToggleMode::Show, m, apps), HiddenState::Hidden, p) <==> (in_group(
                m,
                HiddenState::Hidden,
                p,
            ) && !exists|i: int|
                0 <= i < apps.len() && (#[trigger] apps[i]).pid == p && !in_group(m, HiddenState::AlreadyHidden, p)
                    && apps[i].is_hidden),
        forall|p: usize|
            #[trigger] in_group(planned_table(ToggleMode::Show, m, apps), HiddenState::AlreadyHidden, p) == in_group(
                m,
                HiddenState::AlreadyHidden,
                p,
            ),
{
    lemma_planned_actions_members(ToggleMode::Show, m, apps);
    assert forall|i: int| 0 <= i < apps.len() implies (planned_actions(ToggleMode::Show, m, apps).contains(
        Action::Unhide(i as usize),
    ) <==> (!in_group(m, HiddenState::AlreadyHidden, (#[trigger] apps[i]).pid) && apps[i].is_hidden)) by {
        assert(action_for(ToggleMode::Show, i) == Action::Unhide(i as usize));
    }
    assert forall|p: usize|
        #[trigger] in_group(planned_table(ToggleMode::Show, m, apps), HiddenState::Hidden, p) <==> (in_group(
            m,
            HiddenState::Hidden,
            p,
        ) && !exists|i: int|
            0 <= i < apps.len() && (#[trigger] apps[i]).pid == p && !in_group(m, HiddenState::AlreadyHidden, p)
                && apps[i].is_hidden) by {
        if exists|i: int|
            0 <= i < apps.len() && (#[trigger] apps[i]).pid == p && !in_group(m, HiddenState::AlreadyHidden, p)
                && apps[i].is_hidden {
            let i = choose|i: int|
                0 <= i < apps.len() && (#[trigger] apps[i]).pid == p && !in_group(m, HiddenState::AlreadyHidden, p)
                    && apps[i].is_hidden;
            assert(acts_on(ToggleMode::Show, m, apps[i]));
            assert(acted_pids(ToggleMode::Show, m, apps).contains(p));
        }
        if acted_pids(ToggleMode::Show, m, apps).contains(p) {
            let i = choose|i: int| 0 <= i < apps.len() && #[trigger] apps[i].pid == p && acts_on(ToggleMode::Show, m, apps[i]);
            assert(apps[i].pid == p);
        }
    }
}

/// What noting the hidden applications does, over all inputs: in Hide mode a
/// pid is in the AlreadyHidden group afterwards exactly when it was before or
/// some application with that pid is hidden; the Hidden group is untouched;
/// in Show mode nothing changes.
pub proof fn lemma_note_already_hidden(mode: ToggleMode, m: Map<HiddenState, Set<usize>>, apps: Seq<AppInfo>)
    ensures
        mode == ToggleMode::Show ==> recorded_table(mode, m, apps) == m,
        mode == ToggleMode::Hide ==> forall|p: usize|
            #[trigger] in_group(recorded_table(mode, m, apps), HiddenState::AlreadyHidden, p) <==> (in_group(
                m,
                HiddenState::AlreadyHidden,
                p,
            ) || exists|i: int| 0 <= i < apps.len() && (#[trigger] apps[i]).pid == p && apps[i].is_hidden),
        forall|p: usize|
            #[trigger] in_group(recorded_table(mode, m, apps), HiddenState::Hidden, p) == in_group(
                m,
                HiddenState::Hidden,
                p,
            ),
{
    if mode == ToggleMode::Hide {
        assert forall|p: usize|
            #[trigger] in_group(recorded_table(mode, m, apps), HiddenState::AlreadyHidden, p) <==> (in_group(
                m,
                HiddenState::AlreadyHidden,
                p,
            ) || exists|i: int| 0 <= i < apps.len() && (#[trigger] apps[i]).pid == p && apps[i].is_hidden) by {
            if exists|i: int| 0 <= i < apps.len() && (#[trigger] apps[i]).pid == p && apps[i].is_hidden {
                let i = choose|i: int| 0 <= i < apps.len() && (#[trigger] apps[i]).pid == p && apps[i].is_hidden;
                assert(some_hidden(apps));
                assert(hidden_pids(apps).contains(p));
            }
        }
    }
}

/// A run's requests come in the order of the list, each position at most
/// once: for `x < y`, the request at `x` names an earlier position than the
/// request at `y`.
pub proof fn lemma_planned_actions_order(mode: ToggleMode, m: Map<HiddenState, Set<usize>>, apps: Seq<AppInfo>)
    ensures
        forall|x: int, y: int|
            0 <= x < y < planned_actions(mode, m, apps).len() ==> exists|i: int, j: int|
                0 <= i < j < apps.len() && #[trigger] planned_actions(mode, m, apps)[x] == action_for(mode, i)
                    && #[trigger] planned_actions(mode, m, apps)[y] == action_for(mode, j),
        forall|x: int|
            0 <= x < planned_actions(mode, m, apps).len() ==> exists|i: int|
                0 <= i < apps.len() && #[trigger] planned_actions(mode, m, apps)[x] == action_for(mode, i),
    decreases apps.len(),
{
    if apps.len() > 0 {
        let prev = apps.drop_last();
        lemma_planned_actions_order(mode, m, prev);
        let all = planned_actions(mode, m, apps);
        let before = planned_actions(mode, m, prev);
        let last = apps.len() - 1;
        assert forall|x: int| 0 <= x < all.len() implies exists|i: int|
            0 <= i < apps.len() && #[trigger] all[x] == action_for(mode, i) by {
            if x < before.len() {
                assert(all[x] == before[x]);
                let i = choose|i: int| 0 <= i < prev.len() && #[trigger] before[x] == action_for(mode, i);
            } else {
                assert(all[x] == action_for(mode, last));
            }
        }
        assert forall|x: int, y: int| 0 <= x < y < all.len() implies exists|i: int, j: int|
            0 <= i < j < apps.len() && #[trigger] all[x] == action_for(mode, i) && #[trigger] all[y] == action_for(
                mode,
                j,
            ) by {
            if y < before.len() {
                assert(all[x] == before[x] && all[y] == before[y]);
                let (i, j) = choose|i: int, j: int|
                    0 <= i < j < prev.len() && #[trigger] before[x] == action_for(mode, i) && #[trigger] before[y]
                        == action_for(mode, j);
            } else {
                assert(all[x] == before[x]);
                let i = choose|i: int| 0 <= i < prev.len() && #[trigger] before[x] == action_for(mode, i);
                assert(all[y] == action_for(mode, last));
            }
        }
    }
}

} // verus!
