//! The running applications that own an on-screen window, looked up by
//! process id.
use std::collections::HashMap;
use crate::apps::AppInfo;
use crate::windows::ActiveWindow;
use vstd::prelude::*;

verus! {

broadcast use vstd::std_specs::hash::group_hash_axioms;

/// The position of the last application of `apps` with process id `pid`, or -1 where there is none.
pub open spec fn last_index_of(apps: Seq<AppInfo>, pid: usize) -> int
    decreases apps.len(),
{
    if apps.len() == 0 {
        -1
    } else if apps.last().pid == pid {
        apps.len() - 1
    } else {
        last_index_of(apps.drop_last(), pid)
    }
}

/// Each process id of `apps` mapped to the position of its last application.
pub open spec fn pid_index(apps: Seq<AppInfo>) -> Map<usize, usize> {
    Map::new(|p: usize| last_index_of(apps, p) >= 0, |p: usize| last_index_of(apps, p) as usize)
}

/// The process ids of the windows, in order, each once, those that no
/// application of `index` owns left out.
pub open spec fn running_pids(windows: Seq<ActiveWindow>, index: Map<usize, usize>) -> Seq<usize>
    decreases windows.len(),
{
    if windows.len() == 0 {
        seq![]
    } else {
        let prev = running_pids(windows.drop_last(), index);
        let p = windows.last().pid;
        if index.contains_key(p) && !prev.contains(p) {
            prev.push(p)
        } else {
            prev
        }
    }
}

/// `last_index_of` is a position of the list holding the process id, and
/// there is one exactly when some application has it.
pub proof fn lemma_last_index_of(apps: Seq<AppInfo>, pid: usize)
    ensures
        -1 <= last_index_of(apps, pid) < apps.len(),
        last_index_of(apps, pid) >= 0 ==> apps[last_index_of(apps, pid)].pid == pid,
        last_index_of(apps, pid) >= 0 <==> exists|i: int| 0 <= i < apps.len() && (#[trigger] apps[i]).pid == pid,
        forall|i: int| last_index_of(apps, pid) < i < apps.len() ==> (#[trigger] apps[i]).pid != pid,
    decreases apps.len(),
{
    if apps.len() > 0 {
        lemma_last_index_of(apps.drop_last(), pid);
        let prev = apps.drop_last();
        if apps.last().pid != pid {
            assert forall|i: int| 0 <= i < prev.len() implies prev[i] == apps[i] by {}
            if exists|i: int| 0 <= i < apps.len() && (#[trigger] apps[i]).pid == pid {
                let i = choose|i: int| 0 <= i < apps.len() && (#[trigger] apps[i]).pid == pid;
                assert(prev[i].pid == pid);
            }
        }
    }
}

/// Every process id that `running_pids` gives is owned by an application of the index, and none comes twice.
pub proof fn lemma_running_pids(windows: Seq<ActiveWindow>, index: Map<usize, usize>)
    ensures
        forall|i: int| 0 <= i < running_pids(windows, index).len() ==> index.contains_key(
            #[trigger] running_pids(windows, index)[i],
        ),
        running_pids(windows, index).no_duplicates(),
        forall|i: int| 0 <= i < running_pids(windows, index).len() ==> windows.map_values(|w: ActiveWindow| w.pid).contains(
            #[trigger] running_pids(windows, index)[i],
        ),
    decreases windows.len(),
{
    if windows.len() > 0 {
        let prev = windows.drop_last();
        lemma_running_pids(prev, index);
        let rp = running_pids(windows, index);
        let pp = running_pids(prev, index);
        assert forall|i: int| 0 <= i < rp.len() implies windows.map_values(|w: ActiveWindow| w.pid).contains(
            #[trigger] rp[i],
        ) by {
            if i < pp.len() {
                assert(rp[i] == pp[i]);
                let pm = prev.map_values(|w: ActiveWindow| w.pid);
                let j = choose|j: int| 0 <= j < pm.len() && #[trigger] pm[j] == pp[i];
                assert(windows.map_values(|w: ActiveWindow| w.pid)[j] == pp[i]);
            } else {
                let last = windows.len() - 1;
                assert(windows.map_values(|w: ActiveWindow| w.pid)[last] == rp[i]);
            }
        }
    }
}

/// Which process ids the windowed list holds and in what order, over all
/// inputs, whatever the windows' names: exactly the pids of the windows that
/// an application of the index owns, each once, ordered by their first window
/// (for `x < y`, every window of the pid at `y` comes after some window of the
/// pid at `x`).
pub proof fn lemma_running_pids_law(windows: Seq<ActiveWindow>, index: Map<usize, usize>)
    ensures
        forall|p: usize|
            #[trigger] running_pids(windows, index).contains(p) <==> (index.contains_key(p) && exists|i: int|
                0 <= i < windows.len() && (#[trigger] windows[i]).pid == p),
        running_pids(windows, index).no_duplicates(),
        forall|x: int, y: int, i: int|
            0 <= x < y < running_pids(windows, index).len() && 0 <= i < windows.len() && (#[trigger] windows[i]).pid
                == #[trigger] running_pids(windows, index)[y] ==> exists|j: int|
                0 <= j < i && (#[trigger] windows[j]).pid == #[trigger] running_pids(windows, index)[x],
    decreases windows.len(),
{
    lemma_running_pids(windows, index);
    if windows.len() > 0 {
        let n = windows.len();
        let prev = windows.drop_last();
        lemma_running_pids_law(prev, index);
        let rp = running_pids(windows, index);
        let pp = running_pids(prev, index);
        let last = windows.last().pid;
        assert forall|i: int| 0 <= i < prev.len() implies prev[i] == windows[i] by {}
        assert forall|p: usize|
            #[trigger] rp.contains(p) <==> (index.contains_key(p) && exists|i: int|
                0 <= i < windows.len() && (#[trigger] windows[i]).pid == p) by {
            if rp.contains(p) {
                let k = choose|k: int| 0 <= k < rp.len() && rp[k] == p;
                if k < pp.len() {
                    assert(pp[k] == p);
                    assert(pp.contains(p));
                    let i = choose|i: int| 0 <= i < prev.len() && (#[trigger] prev[i]).pid == p;
                    assert(windows[i].pid == p);
                } else {
                    assert(windows[n - 1].pid == p);
                }
            }
            if index.contains_key(p) && exists|i: int| 0 <= i < windows.len() && (#[trigger] windows[i]).pid == p {
                let i = choose|i: int| 0 <= i < windows.len() && (#[trigger] windows[i]).pid == p;
                if i < n - 1 {
                    assert(prev[i].pid == p);
                    assert(pp.contains(p));
                    let k = choose|k: int| 0 <= k < pp.len() && pp[k] == p;
                    assert(rp[k] == p);
                } else if pp.contains(p) {
                    let k = choose|k: int| 0 <= k < pp.len() && pp[k] == p;
                    assert(rp[k] == p);
                } else {
                    assert(rp[rp.len() - 1] == p);
                }
            }
        }
        assert forall|x: int, y: int, i: int|
            0 <= x < y < rp.len() && 0 <= i < windows.len() && (#[trigger] windows[i]).pid == #[trigger] rp[y] implies exists|j: int|
            0 <= j < i && (#[trigger] windows[j]).pid == #[trigger] rp[x] by {
            if y < pp.len() {
                assert(rp[y] == pp[y] && rp[x] == pp[x]);
                if i < n - 1 {
                    assert(prev[i].pid == pp[y]);
                    let j = choose|j: int| 0 <= j < i && (#[trigger] prev[j]).pid == #[trigger] pp[x];
                    assert(windows[j].pid == rp[x]);
                } else {
                    assert(pp.contains(pp[y]));
                    let i2 = choose|i2: int| 0 <= i2 < prev.len() && (#[trigger] prev[i2]).pid == pp[y];
                    let j = choose|j: int| 0 <= j < i2 && (#[trigger] prev[j]).pid == #[trigger] pp[x];
                    assert(windows[j].pid == rp[x]);
                }
            } else {
                assert(rp[y] == last && !pp.contains(last));
                if i < n - 1 {
                    assert(prev[i].pid == last);
                    assert(false);
                }
                assert(rp[x] == pp[x]);
                assert(pp.contains(pp[x]));
                let j = choose|j: int| 0 <= j < prev.len() && (#[trigger] prev[j]).pid == pp[x];
                assert(windows[j].pid == rp[x]);
            }
        }
    }
}

/// What the index is, over all inputs: it maps exactly the process ids of the
/// applications, each to the position of the last application with that id.
pub proof fn lemma_pid_index(apps: Seq<AppInfo>)
    requires
        apps.len() <= usize::MAX,
    ensures
        forall|p: usize|
            #[trigger] pid_index(apps).contains_key(p) <==> exists|i: int| 0 <= i < apps.len() && (#[trigger] apps[i]).pid == p,
        forall|p: usize|
            #[trigger] pid_index(apps).contains_key(p) ==> {
                &&& pid_index(apps)[p] < apps.len()
                &&& apps[pid_index(apps)[p] as int].pid == p
                &&& forall|i: int| pid_index(apps)[p] < i < apps.len() ==> (#[trigger] apps[i]).pid != p
            },
{
    assert forall|p: usize| #[trigger] pid_index(apps).contains_key(p) <==> exists|i: int|
        0 <= i < apps.len() && (#[trigger] apps[i]).pid == p by {
        lemma_last_index_of(apps, p);
    }
    assert forall|p: usize| #[trigger] pid_index(apps).contains_key(p) implies {
        &&& pid_index(apps)[p] < apps.len()
        &&& apps[pid_index(apps)[p] as int].pid == p
        &&& forall|i: int| pid_index(apps)[p] < i < apps.len() ==> (#[trigger] apps[i]).pid != p
    } by {
        lemma_last_index_of(apps, p);
    }
}

fn contains_pid(pids: &Vec<usize>, pid: usize) -> (res: bool)
    ensures
        res == pids@.contains(pid),
{
    let n = pids.len();
    for i in 0..n
        invariant
            n == pids.len(),
            forall|j: int| 0 <= j < i ==> pids@[j] != pid,
    {
        if pids[i] == pid {
            return true;
        }
    }
    false
}

/// The running applications, with an index from process id to position (the
/// last application with the id wins), and the process ids of those that own
/// an on-screen window, in window order.
pub struct RunningApps {
    apps: Vec<AppInfo>,
    index: HashMap<usize, usize>,
    pids: Vec<usize>,
}

impl RunningApps {
    /// The running applications.
    pub closed spec fn apps_view(&self) -> Seq<AppInfo> {
        self.apps@
    }

    /// The index from process id to position in `apps`.
    pub closed spec fn index_view(&self) -> Map<usize, usize> {
        self.index@
    }

    /// The process ids of the applications with an on-screen window.
    pub closed spec fn pids_view(&self) -> Seq<usize> {
        self.pids@
    }

    /// The index maps each process id to the position of its last application,
    /// and every windowed process id is in the index.
    pub open spec fn wf(&self) -> bool {
        &&& self.index_view() == pid_index(self.apps_view())
        &&& forall|i: int| 0 <= i < self.pids_view().len() ==> self.index_view().contains_key(
            #[trigger] self.pids_view()[i],
        )
    }

    /// Indexes `apps` by process id and keeps, in the order of `windows`, the
    /// process ids that own a window.
    pub fn new(apps: Vec<AppInfo>, windows: &Vec<ActiveWindow>) -> (r: RunningApps)
        ensures
            r.wf(),
            r.apps_view() == apps@,
            r.pids_view() == running_pids(windows@, pid_index(apps@)),
    {
        let mut index: HashMap<usize, usize> = HashMap::new();
        let n = apps.len();
        for i in 0..n
            invariant
                n == apps.len(),
                index@ == pid_index(apps@.take(i as int)),
        {
            let ghost prefix = apps@.take(i as int);
            let ghost next = apps@.take(i + 1);
            assert(next.drop_last() =~= prefix);
            assert(next.last() == apps@[i as int]);
            index.insert(apps[i].pid, i);
            assert(index@ =~= pid_index(next));
        }
        assert(apps@.take(n as int) =~= apps@);
        let mut pids: Vec<usize> = Vec::new();
        let m = windows.len();
        for j in 0..m
            invariant
                m == windows.len(),
                index@ == pid_index(apps@),
                pids@ == running_pids(windows@.take(j as int), index@),
        {
            let ghost next = windows@.take(j + 1);
            assert(next.drop_last() =~= windows@.take(j as int));
            assert(next.last() == windows@[j as int]);
            let p = windows[j].pid;
            if index.contains_key(&p) && !contains_pid(&pids, p) {
                pids.push(p);
            }
        }
        assert(windows@.take(m as int) =~= windows@);
        proof {
            lemma_running_pids(windows@, index@);
        }
        RunningApps { apps, index, pids }
    }

    /// The running applications, in the order they were given.
    pub fn apps(&self) -> (apps: &Vec<AppInfo>)
        ensures
            apps@ == self.apps_view(),
    {
        &self.apps
    }

    /// The process ids of the applications with an on-screen window, in window order.
    pub fn windowed_pids(&self) -> (pids: &Vec<usize>)
        ensures
            pids@ == self.pids_view(),
    {
        &self.pids
    }

    /// The position in `apps` of the (last) application with process id `pid`.
    pub fn position_of(&self, pid: usize) -> (pos: Option<usize>)
        requires
            self.wf(),
        ensures
            pos == (if self.index_view().contains_key(pid) { Some(self.index_view()[pid]) } else { None }),
            pos matches Some(i) ==> i < self.apps_view().len() && self.apps_view()[i as int].pid == pid,
    {
        let n = self.apps.len();
        proof {
            lemma_last_index_of(self.apps_view(), pid);
            assert(n == self.apps_view().len());
        }
        match self.index.get(&pid) {
            Some(i) => Some(*i),
            None => None,
        }
    }

    /// Whether the application with process id `pid` owns an on-screen window.
    pub fn is_windowed(&self, pid: usize) -> (res: bool)
        ensures
            res == self.pids_view().contains(pid),
    {
        contains_pid(&self.pids, pid)
    }
}

} // verus!
