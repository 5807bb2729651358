//! The toggle cycle that also remembers the order of the windowed
//! applications: a Hide run notes the on-screen windows in order, and a Show
//! run brings the windowed applications back in the reverse of that order.
use indexmap::IndexSet;
use crate::apps::{Action, AppInfo};
use crate::mode::{opposite, ToggleMode};
use crate::pids::{
    in_group, lemma_with_pids_insert, lemma_with_pids_members, lemma_without_pids_members, lemma_without_pids_compose, lemma_without_pids_insert,
    with_pids, without_pids, HiddenState, PidTable,
};
use crate::running::RunningApps;
use crate::window_order::{
    index_set_contains, index_set_insert, index_set_items, index_set_items_vec, index_set_new,
};
use crate::windows::ActiveWindow;
use vstd::prelude::*;

verus! {

/// Whether the application with process id `p` is hidden.
pub open spec fn hidden_app(r: RunningApps, p: usize) -> bool {
    r.apps_view()[r.index_view()[p] as int].is_hidden
}

/// The request to hide, or to unhide, the application that `index` gives for `p`.
pub open spec fn request(index: Map<usize, usize>, p: usize, hide: bool) -> Action {
    if hide {
        Action::Hide(index[p])
    } else {
        Action::Unhide(index[p])
    }
}

/// The requests, in order, for the process ids of `pids` that satisfy `pred`.
pub open spec fn requests_for(
    pids: Seq<usize>,
    index: Map<usize, usize>,
    pred: spec_fn(usize) -> bool,
    hide: bool,
) -> Seq<Action>
    decreases pids.len(),
{
    if pids.len() == 0 {
        seq![]
    } else {
        let prev = requests_for(pids.drop_last(), index, pred, hide);
        if pred(pids.last()) {
            prev.push(request(index, pids.last(), hide))
        } else {
            prev
        }
    }
}

/// The process ids of `pids` that satisfy `pred`.
pub open spec fn pids_where(pids: Seq<usize>, pred: spec_fn(usize) -> bool) -> Set<usize> {
    Set::new(|p: usize| pids.contains(p) && pred(p))
}

/// `items` after inserting each process id of `ps` in turn, where it is not there yet.
pub open spec fn appended(items: Seq<usize>, ps: Seq<usize>) -> Seq<usize>
    decreases ps.len(),
{
    if ps.len() == 0 {
        items
    } else {
        let acc = appended(items, ps.drop_last());
        if acc.contains(ps.last()) {
            acc
        } else {
            acc.push(ps.last())
        }
    }
}

/// Hide mode acts on the visible windowed applications.
pub open spec fn visible_pred(r: RunningApps) -> spec_fn(usize) -> bool {
    |p: usize| !hidden_app(r, p)
}

/// Show mode first unhides the hidden windowed applications whose windows were not recorded.
pub open spec fn unrecorded_pred(r: RunningApps, items: Seq<usize>) -> spec_fn(usize) -> bool {
    |p: usize| hidden_app(r, p) && !items.contains(p)
}

/// Then, going through the recorded windows from the last to the first, it
/// unhides each hidden windowed application that was not hidden before the cycle.
pub open spec fn recorded_pred(r: RunningApps, m: Map<HiddenState, Set<usize>>) -> spec_fn(usize) -> bool {
    |p: usize| !in_group(m, HiddenState::AlreadyHidden, p) && r.pids_view().contains(p) && hidden_app(r, p)
}

/// The hidden windowed applications.
pub open spec fn hidden_pred(r: RunningApps) -> spec_fn(usize) -> bool {
    |p: usize| hidden_app(r, p)
}

proof fn lemma_requests_step(
    pids: Seq<usize>,
    index: Map<usize, usize>,
    pred: spec_fn(usize) -> bool,
    hide: bool,
    i: int,
)
    requires
        0 <= i < pids.len(),
    ensures
        requests_for(pids.take(i + 1), index, pred, hide) == (if pred(pids[i]) {
            requests_for(pids.take(i), index, pred, hide).push(request(index, pids[i], hide))
        } else {
            requests_for(pids.take(i), index, pred, hide)
        }),
        pids_where(pids.take(i + 1), pred) == (if pred(pids[i]) {
            pids_where(pids.take(i), pred).insert(pids[i])
        } else {
            pids_where(pids.take(i), pred)
        }),
{
    let next = pids.take(i + 1);
    let prefix = pids.take(i);
    assert(next.drop_last() =~= prefix);
    assert(next.last() == pids[i]);
    assert forall|p: usize| next.contains(p) <==> (prefix.contains(p) || p == pids[i]) by {
        if next.contains(p) {
            let j = choose|j: int| 0 <= j < next.len() && next[j] == p;
            if j < i {
                assert(prefix[j] == p);
            }
        }
        if prefix.contains(p) {
            let j = choose|j: int| 0 <= j < prefix.len() && prefix[j] == p;
            assert(next[j] == p);
        }
        if p == pids[i] {
            assert(next[i] == p);
        }
    }
    if pred(pids[i]) {
        assert(pids_where(next, pred) =~= pids_where(prefix, pred).insert(pids[i]));
    } else {
        assert(pids_where(next, pred) =~= pids_where(prefix, pred));
    }
}

proof fn lemma_requests_empty(pids: Seq<usize>, index: Map<usize, usize>, pred: spec_fn(usize) -> bool, hide: bool)
    ensures
        requests_for(pids.take(0), index, pred, hide) == Seq::<Action>::empty(),
        pids_where(pids.take(0), pred) == Set::<usize>::empty(),
{
    assert(pids.take(0) =~= Seq::<usize>::empty());
    assert(pids_where(pids.take(0), pred) =~= Set::<usize>::empty());
}

/// Every process id of `pids` that satisfies `pred` has its request in `requests_for`.
pub proof fn lemma_requests_members(pids: Seq<usize>, index: Map<usize, usize>, pred: spec_fn(usize) -> bool, hide: bool)
    ensures
        forall|i: int|
            0 <= i < pids.len() && pred(#[trigger] pids[i]) ==> requests_for(pids, index, pred, hide).contains(
                request(index, pids[i], hide),
            ),
    decreases pids.len(),
{
    if pids.len() > 0 {
        let prev = pids.drop_last();
        lemma_requests_members(prev, index, pred, hide);
        let all = requests_for(pids, index, pred, hide);
        let before = requests_for(prev, index, pred, hide);
        assert forall|i: int| 0 <= i < pids.len() && pred(#[trigger] pids[i]) implies all.contains(
            request(index, pids[i], hide),
        ) by {
            if i < prev.len() {
                assert(prev[i] == pids[i]);
                let k = choose|k: int| 0 <= k < before.len() && before[k] == request(index, prev[i], hide);
                assert(all[k] == before[k]);
            } else {
                assert(all.last() == request(index, pids[i], hide));
            }
        }
    }
}

/// What `appended` holds: the items it started from and the process ids inserted.
pub proof fn lemma_appended_contains(items: Seq<usize>, ps: Seq<usize>)
    ensures
        forall|x: usize| appended(items, ps).contains(x) <==> (items.contains(x) || ps.contains(x)),
    decreases ps.len(),
{
    if ps.len() > 0 {
        let prev = ps.drop_last();
        lemma_appended_contains(items, prev);
        let acc = appended(items, prev);
        let last = ps.last();
        assert forall|x: usize| ps.contains(x) <==> (prev.contains(x) || x == last) by {
            if ps.contains(x) {
                let j = choose|j: int| 0 <= j < ps.len() && ps[j] == x;
                if j < prev.len() {
                    assert(prev[j] == x);
                }
            }
            if prev.contains(x) {
                let j = choose|j: int| 0 <= j < prev.len() && prev[j] == x;
                assert(ps[j] == x);
            }
            if x == last {
                assert(ps[ps.len() - 1] == x);
            }
        }
        if !acc.contains(last) {
            assert forall|x: usize| acc.push(last).contains(x) <==> (acc.contains(x) || x == last) by {
                if acc.push(last).contains(x) {
                    let j = choose|j: int| 0 <= j < acc.push(last).len() && acc.push(last)[j] == x;
                    if j < acc.len() {
                        assert(acc[j] == x);
                    }
                }
                if acc.contains(x) {
                    let j = choose|j: int| 0 <= j < acc.len() && acc[j] == x;
                    assert(acc.push(last)[j] == x);
                }
                if x == last {
                    assert(acc.push(last)[acc.len() as int] == x);
                }
            }
        }
    }
}

/// A Show run brings back what the Hide run before it hid. Take a Hide run
/// from the groups `m0` and the window order `items0` that sees the running
/// applications `r1` and the windows `w1` (it notes the state, then plans),
/// and an application with process id `p` that owns one of those windows,
/// is visible, and was not hidden before the cycle. That run asks to hide
/// it. If at the next run (in Show mode, from what the first one left, seeing
/// `r2`) the application owns a window and is hidden, that run asks to
/// unhide it, and the Hidden group it leaves no longer holds the process id.
pub proof fn lemma_show_brings_back_windowed(
    m0: Map<HiddenState, Set<usize>>,
    items0: Seq<usize>,
    r1: RunningApps,
    w1: Seq<ActiveWindow>,
    r2: RunningApps,
    p: usize,
)
    requires
        r1.wf(),
        r2.wf(),
        r1.pids_view() == crate::running::running_pids(w1, r1.index_view()),
        r1.pids_view().contains(p),
        !hidden_app(r1, p),
        !in_group(m0, HiddenState::AlreadyHidden, p),
        r2.pids_view().contains(p),
        hidden_app(r2, p),
    ensures
        ({
            let m1 = with_pids(m0, HiddenState::AlreadyHidden, pids_where(r1.pids_view(), hidden_pred(r1)));
            let items1 = appended(items0, w1.map_values(|w: ActiveWindow| w.pid));
            let m2 = with_pids(m1, HiddenState::Hidden, pids_where(r1.pids_view(), visible_pred(r1)));
            &&& requests_for(r1.pids_view(), r1.index_view(), visible_pred(r1), true).contains(
                Action::Hide(r1.index_view()[p]),
            )
            &&& (requests_for(r2.pids_view(), r2.index_view(), unrecorded_pred(r2, items1), false) + requests_for(
                items1.reverse(),
                r2.index_view(),
                recorded_pred(r2, m2),
                false,
            )).contains(Action::Unhide(r2.index_view()[p]))
            &&& !in_group(
                without_pids(
                    m2,
                    HiddenState::Hidden,
                    pids_where(r2.pids_view(), unrecorded_pred(r2, items1)).union(
                        pids_where(items1.reverse(), recorded_pred(r2, m2)),
                    ),
                ),
                HiddenState::Hidden,
                p,
            )
        }),
{
    let m1 = with_pids(m0, HiddenState::AlreadyHidden, pids_where(r1.pids_view(), hidden_pred(r1)));
    let ps = w1.map_values(|w: ActiveWindow| w.pid);
    let items1 = appended(items0, ps);
    let m2 = with_pids(m1, HiddenState::Hidden, pids_where(r1.pids_view(), visible_pred(r1)));
    // The Hide run asks to hide it.
    lemma_requests_members(r1.pids_view(), r1.index_view(), visible_pred(r1), true);
    let i1 = choose|i: int| 0 <= i < r1.pids_view().len() && r1.pids_view()[i] == p;
    assert(visible_pred(r1)(r1.pids_view()[i1]));
    // It is in the window order.
    crate::running::lemma_running_pids(w1, r1.index_view());
    assert(ps.contains(p));
    lemma_appended_contains(items0, ps);
    assert(items1.contains(p));
    let j = choose|j: int| 0 <= j < items1.len() && items1[j] == p;
    let order = items1.reverse();
    let k = items1.len() - 1 - j;
    assert(order[k] == p);
    // It was not noted as hidden before the cycle.
    assert(!pids_where(r1.pids_view(), hidden_pred(r1)).contains(p));
    assert(!in_group(m2, HiddenState::AlreadyHidden, p));
    assert(recorded_pred(r2, m2)(order[k]));
    lemma_requests_members(order, r2.index_view(), recorded_pred(r2, m2), false);
    let first = requests_for(r2.pids_view(), r2.index_view(), unrecorded_pred(r2, items1), false);
    let second = requests_for(order, r2.index_view(), recorded_pred(r2, m2), false);
    assert(second.contains(Action::Unhide(r2.index_view()[p])));
    let x = choose|x: int| 0 <= x < second.len() && second[x] == Action::Unhide(r2.index_view()[p]);
    assert((first + second)[first.len() + x] == second[x]);
    // And its process id leaves the Hidden group.
    assert(order.contains(p));
    assert(pids_where(order, recorded_pred(r2, m2)).contains(p));
}

/// Every request of `requests_for` comes from a process id of `pids` that satisfies `pred`.
pub proof fn lemma_requests_origin(pids: Seq<usize>, index: Map<usize, usize>, pred: spec_fn(usize) -> bool, hide: bool)
    ensures
        forall|a: Action|
            #[trigger] requests_for(pids, index, pred, hide).contains(a) ==> exists|i: int|
                0 <= i < pids.len() && pred(#[trigger] pids[i]) && a == request(index, pids[i], hide),
    decreases pids.len(),
{
    if pids.len() > 0 {
        let prev = pids.drop_last();
        lemma_requests_origin(prev, index, pred, hide);
        let all = requests_for(pids, index, pred, hide);
        let before = requests_for(prev, index, pred, hide);
        assert forall|a: Action| #[trigger] all.contains(a) implies exists|i: int|
            0 <= i < pids.len() && pred(#[trigger] pids[i]) && a == request(index, pids[i], hide) by {
            let k = choose|k: int| 0 <= k < all.len() && all[k] == a;
            if k < before.len() {
                assert(before[k] == a);
                assert(before.contains(a));
                let i = choose|i: int| 0 <= i < prev.len() && pred(#[trigger] prev[i]) && a == request(index, prev[i], hide);
                assert(prev[i] == pids[i]);
            } else {
                assert(pids[pids.len() - 1] == pids.last());
            }
        }
    }
}

/// The requests come in the order of `pids`: for `x < y`, the request at `x`
/// comes from an earlier process id of `pids` than the request at `y`.
pub proof fn lemma_requests_order(pids: Seq<usize>, index: Map<usize, usize>, pred: spec_fn(usize) -> bool, hide: bool)
    ensures
        forall|x: int, y: int|
            0 <= x < y < requests_for(pids, index, pred, hide).len() ==> exists|i: int, j: int|
                0 <= i < j < pids.len() && pred(pids[i]) && pred(pids[j])
                    && #[trigger] requests_for(pids, index, pred, hide)[x] == request(index, pids[i], hide)
                    && #[trigger] requests_for(pids, index, pred, hide)[y] == request(index, pids[j], hide),
        forall|x: int|
            0 <= x < requests_for(pids, index, pred, hide).len() ==> exists|i: int|
                0 <= i < pids.len() && pred(pids[i]) && #[trigger] requests_for(pids, index, pred, hide)[x]
                    == request(index, pids[i], hide),
    decreases pids.len(),
{
    if pids.len() > 0 {
        let prev = pids.drop_last();
        lemma_requests_order(prev, index, pred, hide);
        let all = requests_for(pids, index, pred, hide);
        let before = requests_for(prev, index, pred, hide);
        let last = pids.len() - 1;
        assert forall|i: int| 0 <= i < prev.len() implies prev[i] == pids[i] by {}
        assert forall|x: int| 0 <= x < all.len() implies exists|i: int|
            0 <= i < pids.len() && pred(pids[i]) && #[trigger] all[x] == request(index, pids[i], hide) by {
            if x < before.len() {
                assert(all[x] == before[x]);
                let i = choose|i: int| 0 <= i < prev.len() && pred(prev[i]) && #[trigger] before[x] == request(index, prev[i], hide);
            } else {
                assert(all[x] == request(index, pids[last], hide));
            }
        }
        assert forall|x: int, y: int| 0 <= x < y < all.len() implies exists|i: int, j: int|
            0 <= i < j < pids.len() && pred(pids[i]) && pred(pids[j]) && #[trigger] all[x] == request(index, pids[i], hide)
                && #[trigger] all[y] == request(index, pids[j], hide) by {
            if y < before.len() {
                assert(all[x] == before[x] && all[y] == before[y]);
                let (i, j) = choose|i: int, j: int|
                    0 <= i < j < prev.len() && pred(prev[i]) && pred(prev[j]) && #[trigger] before[x] == request(
                        index,
                        prev[i],
                        hide,
                    ) && #[trigger] before[y] == request(index, prev[j], hide);
            } else {
                assert(all[x] == before[x]);
                let i = choose|i: int| 0 <= i < prev.len() && pred(prev[i]) && #[trigger] before[x] == request(index, prev[i], hide);
                assert(all[y] == request(index, pids[last], hide));
            }
        }
    }
}

/// What a windowed Hide run asks for and records, over all inputs: it asks to
/// hide the application of each windowed process id whose application is
/// visible, and nothing else; afterwards a pid is in the Hidden group exactly
/// when it was before or it is such a pid; the AlreadyHidden group is untouched.
pub proof fn lemma_windowed_hide_run(r: RunningApps, m: Map<HiddenState, Set<usize>>)
    requires
        r.wf(),
    ensures
        ({
            let acts = requests_for(r.pids_view(), r.index_view(), visible_pred(r), true);
            let after = with_pids(m, HiddenState::Hidden, pids_where(r.pids_view(), visible_pred(r)));
            &&& forall|p: usize|
                r.pids_view().contains(p) && !r.apps_view()[r.index_view()[p] as int].is_hidden ==> #[trigger] acts.contains(
                    Action::Hide(r.index_view()[p]),
                )
            &&& forall|a: Action|
                #[trigger] acts.contains(a) ==> exists|p: usize|
                    r.pids_view().contains(p) && !r.apps_view()[#[trigger] r.index_view()[p] as int].is_hidden && a
                        == Action::Hide(r.index_view()[p])
            &&& forall|p: usize|
                #[trigger] in_group(after, HiddenState::Hidden, p) <==> (in_group(m, HiddenState::Hidden, p) || (
                r.pids_view().contains(p) && !r.apps_view()[r.index_view()[p] as int].is_hidden))
            &&& forall|p: usize|
                #[trigger] in_group(after, HiddenState::AlreadyHidden, p) == in_group(m, HiddenState::AlreadyHidden, p)
        }),
{
    let pids = r.pids_view();
    let pred = visible_pred(r);
    let acts = requests_for(pids, r.index_view(), pred, true);
    lemma_requests_members(pids, r.index_view(), pred, true);
    lemma_requests_origin(pids, r.index_view(), pred, true);
    lemma_with_pids_members(m, HiddenState::Hidden, pids_where(pids, pred));
    assert forall|p: usize|
        pids.contains(p) && !r.apps_view()[r.index_view()[p] as int].is_hidden implies #[trigger] acts.contains(
        Action::Hide(r.index_view()[p]),
    ) by {
        let i = choose|i: int| 0 <= i < pids.len() && pids[i] == p;
        assert(pred(pids[i]));
    }
    assert forall|a: Action| #[trigger] acts.contains(a) implies exists|p: usize|
        pids.contains(p) && !r.apps_view()[#[trigger] r.index_view()[p] as int].is_hidden && a == Action::Hide(
            r.index_view()[p],
        ) by {
        let i = choose|i: int| 0 <= i < pids.len() && pred(#[trigger] pids[i]) && a == request(r.index_view(), pids[i], true);
        assert(pids.contains(pids[i]));
    }
}

/// What a windowed Show run asks for and records, over all inputs: every
/// request unhides the application of a windowed process id whose application
/// is hidden and that either was not recorded in the window order or is not in
/// the AlreadyHidden group; each such application is asked to be unhidden; and
/// afterwards a pid is in the Hidden group exactly when it was before and it is
/// not such a pid. The AlreadyHidden group is untouched.
pub proof fn lemma_windowed_show_run(r: RunningApps, items: Seq<usize>, m: Map<HiddenState, Set<usize>>)
    requires
        r.wf(),
    ensures
        ({
            let first = unrecorded_pred(r, items);
            let second = recorded_pred(r, m);
            let acts = requests_for(r.pids_view(), r.index_view(), first, false) + requests_for(
                items.reverse(),
                r.index_view(),
                second,
                false,
            );
            let after = without_pids(
                m,
                HiddenState::Hidden,
                pids_where(r.pids_view(), first).union(pids_where(items.reverse(), second)),
            );
            &&& forall|a: Action|
                #[trigger] acts.contains(a) ==> exists|p: usize|
                    r.pids_view().contains(p) && r.apps_view()[#[trigger] r.index_view()[p] as int].is_hidden && (
                    !items.contains(p) || !in_group(m, HiddenState::AlreadyHidden, p)) && a == Action::Unhide(
                        r.index_view()[p],
                    )
            &&& forall|p: usize|
                r.pids_view().contains(p) && r.apps_view()[r.index_view()[p] as int].is_hidden && (!items.contains(p)
                    || !in_group(m, HiddenState::AlreadyHidden, p)) ==> #[trigger] acts.contains(
                    Action::Unhide(r.index_view()[p]),
                )
            &&& forall|p: usize|
                #[trigger] in_group(after, HiddenState::Hidden, p) <==> (in_group(m, HiddenState::Hidden, p) && !(
                r.pids_view().contains(p) && r.apps_view()[r.index_view()[p] as int].is_hidden && (!items.contains(p)
                    || !in_group(m, HiddenState::AlreadyHidden, p))))
            &&& forall|p: usize|
                #[trigger] in_group(after, HiddenState::AlreadyHidden, p) == in_group(m, HiddenState::AlreadyHidden, p)
        }),
{
    let pids = r.pids_view();
    let idx = r.index_view();
    let first = unrecorded_pred(r, items);
    let second = recorded_pred(r, m);
    let order = items.reverse();
    let a1 = requests_for(pids, idx, first, false);
    let a2 = requests_for(order, idx, second, false);
    let acts = a1 + a2;
    lemma_requests_members(pids, idx, first, false);
    lemma_requests_origin(pids, idx, first, false);
    lemma_requests_members(order, idx, second, false);
    lemma_requests_origin(order, idx, second, false);
    let s = pids_where(pids, first).union(pids_where(order, second));
    lemma_without_pids_members(m, HiddenState::Hidden, s);
    assert forall|x: usize| order.contains(x) <==> items.contains(x) by {
        if order.contains(x) {
            let j = choose|j: int| 0 <= j < order.len() && order[j] == x;
            assert(items[items.len() - 1 - j] == x);
        }
        if items.contains(x) {
            let j = choose|j: int| 0 <= j < items.len() && items[j] == x;
            assert(order[items.len() - 1 - j] == x);
        }
    }
    assert forall|a: Action| #[trigger] acts.contains(a) implies exists|p: usize|
        pids.contains(p) && r.apps_view()[#[trigger] idx[p] as int].is_hidden && (!items.contains(p) || !in_group(
            m,
            HiddenState::AlreadyHidden,
            p,
        )) && a == Action::Unhide(idx[p]) by {
        let k = choose|k: int| 0 <= k < acts.len() && acts[k] == a;
        if k < a1.len() {
            assert(a1[k] == a);
            assert(a1.contains(a));
            let i = choose|i: int| 0 <= i < pids.len() && first(#[trigger] pids[i]) && a == request(idx, pids[i], false);
            assert(pids.contains(pids[i]));
        } else {
            assert(a2[k - a1.len()] == a);
            assert(a2.contains(a));
            let i = choose|i: int| 0 <= i < order.len() && second(#[trigger] order[i]) && a == request(idx, order[i], false);
        }
    }
    assert forall|p: usize|
        pids.contains(p) && r.apps_view()[idx[p] as int].is_hidden && (!items.contains(p) || !in_group(
            m,
            HiddenState::AlreadyHidden,
            p,
        )) implies #[trigger] acts.contains(Action::Unhide(idx[p])) by {
        if !items.contains(p) {
            let i = choose|i: int| 0 <= i < pids.len() && pids[i] == p;
            assert(first(pids[i]));
            assert(a1.contains(Action::Unhide(idx[p])));
            let x = choose|x: int| 0 <= x < a1.len() && a1[x] == Action::Unhide(idx[p]);
            assert(acts[x] == a1[x]);
        } else {
            let i = choose|i: int| 0 <= i < order.len() && order[i] == p;
            assert(second(order[i]));
            assert(a2.contains(Action::Unhide(idx[p])));
            let x = choose|x: int| 0 <= x < a2.len() && a2[x] == Action::Unhide(idx[p]);
            assert(acts[a1.len() + x] == a2[x]);
        }
    }
}

/// What noting the state of a windowed Hide run does to the groups, over all
/// inputs: afterwards a pid is in the AlreadyHidden group exactly when it was
/// before or it is a windowed process id whose application is hidden; the
/// Hidden group is untouched. The window order keeps what it held first and
/// then holds exactly those items and the inserted process ids.
pub proof fn lemma_windowed_note(r: RunningApps, m: Map<HiddenState, Set<usize>>, items: Seq<usize>, ps: Seq<usize>)
    requires
        r.wf(),
    ensures
        ({
            let after = with_pids(m, HiddenState::AlreadyHidden, pids_where(r.pids_view(), hidden_pred(r)));
            &&& forall|p: usize|
                #[trigger] in_group(after, HiddenState::AlreadyHidden, p) <==> (in_group(m, HiddenState::AlreadyHidden, p)
                    || (r.pids_view().contains(p) && r.apps_view()[r.index_view()[p] as int].is_hidden))
            &&& forall|p: usize| #[trigger] in_group(after, HiddenState::Hidden, p) == in_group(m, HiddenState::Hidden, p)
        }),
        appended(items, ps).len() >= items.len(),
        appended(items, ps).take(items.len() as int) == items,
        forall|x: usize| #[trigger] appended(items, ps).contains(x) <==> (items.contains(x) || ps.contains(x)),
        items.no_duplicates() ==> appended(items, ps).no_duplicates(),
{
    lemma_with_pids_members(m, HiddenState::AlreadyHidden, pids_where(r.pids_view(), hidden_pred(r)));
    lemma_appended_contains(items, ps);
    lemma_appended_prefix(items, ps);
}

proof fn lemma_appended_prefix(items: Seq<usize>, ps: Seq<usize>)
    ensures
        appended(items, ps).len() >= items.len(),
        appended(items, ps).take(items.len() as int) == items,
        items.no_duplicates() ==> appended(items, ps).no_duplicates(),
    decreases ps.len(),
{
    if ps.len() > 0 {
        lemma_appended_prefix(items, ps.drop_last());
        let acc = appended(items, ps.drop_last());
        if !acc.contains(ps.last()) {
            assert(acc.push(ps.last()).take(items.len() as int) =~= acc.take(items.len() as int));
        }
    } else {
        assert(items.take(items.len() as int) =~= items);
    }
}

/// The state kept between two runs, with the order of the windows.
pub struct AppState {
    /// The mode of the run that saved (or, once restored, runs with) this state.
    pub mode: ToggleMode,
    /// The process ids of each group.
    pub pids: PidTable,
    /// The process ids of the windowed applications, in the order their
    /// windows were first seen.
    pub windows: IndexSet<usize>,
}

impl AppState {
    /// The state of a first run: Hide mode, no group, no window.
    pub fn new() -> (s: AppState)
        ensures
            s.mode == ToggleMode::Hide,
            s.pids@ == Map::<HiddenState, Set<usize>>::empty(),
            index_set_items(s.windows) == Seq::<usize>::empty(),
    {
        AppState { mode: ToggleMode::Hide, pids: PidTable::new(), windows: index_set_new() }
    }

    /// The state a run works with: a fresh one where nothing was saved, or the
    /// saved one with its mode switched.
    pub fn restore(saved: Option<AppState>) -> (s: AppState)
        ensures
            match saved {
                None => {
                    &&& s.mode == ToggleMode::Hide
                    &&& s.pids@ == Map::<HiddenState, Set<usize>>::empty()
                    &&& index_set_items(s.windows) == Seq::<usize>::empty()
                },
                Some(old_state) => {
                    &&& s.mode == opposite(old_state.mode)
                    &&& s.pids@ == old_state.pids@
                    &&& index_set_items(s.windows) == index_set_items(old_state.windows)
                },
            },
    {
        match saved {
            None => AppState::new(),
            Some(old_state) => {
                let mode = old_state.mode.toggle();
                AppState { mode, pids: old_state.pids, windows: old_state.windows }
            },
        }
    }

    /// In Hide mode, notes the hidden windowed applications in the
    /// AlreadyHidden group and appends the process ids of the windows, in
    /// order, to the window order; in Show mode does nothing.
    pub fn note_state(&mut self, running: &RunningApps, windows: &Vec<ActiveWindow>)
        requires
            running.wf(),
        ensures
            final(self).mode == old(self).mode,
            old(self).mode == ToggleMode::Hide ==> {
                &&& final(self).pids@ == with_pids(
                    old(self).pids@,
                    HiddenState::AlreadyHidden,
                    pids_where(running.pids_view(), hidden_pred(*running)),
                )
                &&& index_set_items(final(self).windows) == appended(
                    index_set_items(old(self).windows),
                    windows@.map_values(|w: ActiveWindow| w.pid),
                )
            },
            old(self).mode == ToggleMode::Show ==> {
                &&& final(self).pids@ == old(self).pids@
                &&& index_set_items(final(self).windows) == index_set_items(old(self).windows)
            },
    {
        if self.mode != ToggleMode::Hide {
            return;
        }
        let ghost m0 = self.pids@;
        let ghost items0 = index_set_items(self.windows);
        let ghost pred = hidden_pred(*running);
        let pids = running.windowed_pids();
        let n = pids.len();
        proof {
            lemma_requests_empty(pids@, running.index_view(), pred, true);
            assert(with_pids(m0, HiddenState::AlreadyHidden, Set::empty()) == m0);
        }
        for i in 0..n
            invariant
                n == pids.len(),
                pids@ == running.pids_view(),
                running.wf(),
                self.mode == ToggleMode::Hide,
                pred == hidden_pred(*running),
                index_set_items(self.windows) == items0,
                self.pids@ == with_pids(m0, HiddenState::AlreadyHidden, pids_where(pids@.take(i as int), pred)),
        {
            let p = pids[i];
            proof {
                lemma_requests_step(pids@, running.index_view(), pred, true, i as int);
            }
            let pos = running.position_of(p).unwrap();
            if running.apps()[pos].is_hidden {
                proof {
                    lemma_with_pids_insert(m0, HiddenState::AlreadyHidden, pids_where(pids@.take(i as int), pred), p);
                }
                self.pids.insert(HiddenState::AlreadyHidden, p);
            }
        }
        assert(pids@.take(n as int) =~= pids@);
        let ghost ps = windows@.map_values(|w: ActiveWindow| w.pid);
        let m = windows.len();
        for j in 0..m
            invariant
                m == windows.len(),
                ps == windows@.map_values(|w: ActiveWindow| w.pid),
                self.mode == ToggleMode::Hide,
                index_set_items(self.windows) == appended(items0, ps.take(j as int)),
                self.pids@ == with_pids(m0, HiddenState::AlreadyHidden, pids_where(running.pids_view(), pred)),
        {
            let ghost next = ps.take(j + 1);
            assert(next.drop_last() =~= ps.take(j as int));
            assert(next.last() == windows@[j as int].pid);
            index_set_insert(&mut self.windows, windows[j].pid);
        }
        assert(ps.take(m as int) =~= ps);
    }

    /// Decides what this run does with the windowed applications, and
    /// records it. In Hide mode each visible one is hidden, in window order,
    /// and joins the Hidden group. In Show mode each hidden one whose window
    /// was not recorded is unhidden first; then, from the last recorded window
    /// to the first, each hidden windowed application that was not hidden
    /// before the cycle is unhidden; all those leave the Hidden group.
    pub fn plan(&mut self, running: &RunningApps) -> (actions: Vec<Action>)
        requires
            running.wf(),
        ensures
            final(self).mode == old(self).mode,
            index_set_items(final(self).windows) == index_set_items(old(self).windows),
            old(self).mode == ToggleMode::Hide ==> {
                &&& actions@ == requests_for(running.pids_view(), running.index_view(), visible_pred(*running), true)
                &&& final(self).pids@ == with_pids(
                    old(self).pids@,
                    HiddenState::Hidden,
                    pids_where(running.pids_view(), visible_pred(*running)),
                )
            },
            old(self).mode == ToggleMode::Show ==> {
                let items = index_set_items(old(self).windows);
                let first = unrecorded_pred(*running, items);
                let second = recorded_pred(*running, old(self).pids@);
                &&& actions@ == requests_for(running.pids_view(), running.index_view(), first, false) + requests_for(
                    items.reverse(),
                    running.index_view(),
                    second,
                    false,
                )
                &&& final(self).pids@ == without_pids(
                    old(self).pids@,
                    HiddenState::Hidden,
                    pids_where(running.pids_view(), first).union(pids_where(items.reverse(), second)),
                )
            },
    {
        let ghost m0 = self.pids@;
        let mut actions: Vec<Action> = Vec::new();
        let pids = running.windowed_pids();
        let n = pids.len();
        match self.mode {
            ToggleMode::Hide => {
                let ghost pred = visible_pred(*running);
                proof {
                    lemma_requests_empty(pids@, running.index_view(), pred, true);
                    assert(with_pids(m0, HiddenState::Hidden, Set::empty()) == m0);
                }
                for i in 0..n
                    invariant
                        n == pids.len(),
                        pids@ == running.pids_view(),
                        running.wf(),
                        self.mode == ToggleMode::Hide,
                        pred == visible_pred(*running),
                        index_set_items(self.windows) == index_set_items(old(self).windows),
                        self.pids@ == with_pids(m0, HiddenState::Hidden, pids_where(pids@.take(i as int), pred)),
                        actions@ == requests_for(pids@.take(i as int), running.index_view(), pred, true),
                {
                    let p = pids[i];
                    proof {
                        lemma_requests_step(pids@, running.index_view(), pred, true, i as int);
                    }
                    let pos = running.position_of(p).unwrap();
                    if !running.apps()[pos].is_hidden {
                        proof {
                            lemma_with_pids_insert(m0, HiddenState::Hidden, pids_where(pids@.take(i as int), pred), p);
                        }
                        actions.push(Action::Hide(pos));
                        self.pids.insert(HiddenState::Hidden, p);
                    }
                }
                assert(pids@.take(n as int) =~= pids@);
            },
            ToggleMode::Show => {
                let items = index_set_items_vec(&self.windows);
                let ghost first = unrecorded_pred(*running, items@);
                let ghost second = recorded_pred(*running, m0);
                proof {
                    lemma_requests_empty(pids@, running.index_view(), first, false);
                    lemma_without_pids_compose(m0, HiddenState::Hidden, Set::empty(), Set::empty());
                }
                for i in 0..n
                    invariant
                        n == pids.len(),
                        pids@ == running.pids_view(),
                        running.wf(),
                        self.mode == ToggleMode::Show,
                        first == unrecorded_pred(*running, items@),
                        items@ == index_set_items(self.windows),
                        index_set_items(self.windows) == index_set_items(old(self).windows),
                        self.pids@ == without_pids(m0, HiddenState::Hidden, pids_where(pids@.take(i as int), first)),
                        actions@ == requests_for(pids@.take(i as int), running.index_view(), first, false),
                {
                    let p = pids[i];
                    proof {
                        lemma_requests_step(pids@, running.index_view(), first, false, i as int);
                    }
                    let pos = running.position_of(p).unwrap();
                    if running.apps()[pos].is_hidden && !index_set_contains(&self.windows, p) {
                        proof {
                            lemma_without_pids_insert(m0, HiddenState::Hidden, pids_where(pids@.take(i as int), first), p);
                        }
                        actions.push(Action::Unhide(pos));
                        self.pids.remove(HiddenState::Hidden, p);
                    }
                }
                assert(pids@.take(n as int) =~= pids@);
                let ghost s1 = pids_where(pids@, first);
                let ghost part1 = actions@;
                let ghost order = items@.reverse();
                let k = items.len();
                proof {
                    lemma_requests_empty(order, running.index_view(), second, false);
                    assert(s1.union(Set::empty()) =~= s1);
                    assert(part1 + Seq::<Action>::empty() =~= part1);
                }
                for j in 0..k
                    invariant
                        k == items.len(),
                        order == items@.reverse(),
                        running.wf(),
                        self.mode == ToggleMode::Show,
                        second == recorded_pred(*running, m0),
                        index_set_items(self.windows) == index_set_items(old(self).windows),
                        self.pids@ == without_pids(
                            m0,
                            HiddenState::Hidden,
                            s1.union(pids_where(order.take(j as int), second)),
                        ),
                        actions@ == part1 + requests_for(order.take(j as int), running.index_view(), second, false),
                {
                    let w = items[k - 1 - j];
                    assert(order[j as int] == w);
                    proof {
                        lemma_requests_step(order, running.index_view(), second, false, j as int);
                    }
                    let already = self.pids.contains(HiddenState::AlreadyHidden, w);
                    assert(already == in_group(m0, HiddenState::AlreadyHidden, w));
                    if !already && running.is_windowed(w) {
                        let pos = running.position_of(w).unwrap();
                        if running.apps()[pos].is_hidden {
                            let ghost before = pids_where(order.take(j as int), second);
                            proof {
                                lemma_without_pids_insert(m0, HiddenState::Hidden, s1.union(before), w);
                                assert(s1.union(before).insert(w) =~= s1.union(before.insert(w)));
                                assert(actions@.push(Action::Unhide(pos)) =~= part1 + requests_for(
                                    order.take(j as int),
                                    running.index_view(),
                                    second,
                                    false,
                                ).push(Action::Unhide(pos)));
                            }
                            actions.push(Action::Unhide(pos));
                            self.pids.remove(HiddenState::Hidden, w);
                        }
                    }
                }
                assert(order.take(k as int) =~= order);
            },
        }
        actions
    }

    /// A state from its parts, the window order given as a list (each process
    /// id is kept at its first place).
    pub fn from_parts(mode: ToggleMode, pids: PidTable, windows: &Vec<usize>) -> (s: AppState)
        ensures
            s.mode == mode,
            s.pids@ == pids@,
            index_set_items(s.windows) == appended(Seq::<usize>::empty(), windows@),
    {
        let mut set = index_set_new();
        let n = windows.len();
        for i in 0..n
            invariant
                n == windows.len(),
                index_set_items(set) == appended(Seq::<usize>::empty(), windows@.take(i as int)),
        {
            let ghost next = windows@.take(i + 1);
            assert(next.drop_last() =~= windows@.take(i as int));
            assert(next.last() == windows@[i as int]);
            index_set_insert(&mut set, windows[i]);
        }
        assert(windows@.take(n as int) =~= windows@);
        AppState { mode, pids, windows: set }
    }

    /// The window order as a list.
    pub fn window_pids(&self) -> (pids: Vec<usize>)
        ensures
            pids@ == index_set_items(self.windows),
    {
        index_set_items_vec(&self.windows)
    }

    /// Whether the state is written back at the end of the run: only after a
    /// Hide run; a Show run ends the cycle and leaves the state file empty.
    pub fn should_save(&self) -> (res: bool)
        ensures
            res == (self.mode == ToggleMode::Hide),
    {
        self.mode == ToggleMode::Hide
    }
}

} // verus!
