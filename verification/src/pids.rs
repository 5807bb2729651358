use std::collections::HashSet;
use vstd::prelude::*;

verus! {

broadcast use vstd::std_specs::hash::group_hash_axioms;

/// The groups of process ids that the state keeps track of.
#[derive(PartialEq, Eq, Structural, Clone, Copy, Debug, Hash)]
pub enum HiddenState {
    /// Applications this program hid.
    Hidden,
    /// Applications known to be visible (kept for the state format; never filled).
    NotHidden,
    /// Applications that were hidden before this program hid anything.
    AlreadyHidden,
}

/// The group of a table, or the empty set where the table has no entry for it.
pub open spec fn group_of(m: Map<HiddenState, Set<usize>>, k: HiddenState) -> Set<usize> {
    if m.dom().contains(k) {
        m[k]
    } else {
        Set::empty()
    }
}

/// Whether `pid` is recorded in group `k`.
pub open spec fn in_group(m: Map<HiddenState, Set<usize>>, k: HiddenState, pid: usize) -> bool {
    m.dom().contains(k) && m[k].contains(pid)
}

/// The table after adding `pid` to group `k`, creating the group where it is missing.
pub open spec fn with_pid(m: Map<HiddenState, Set<usize>>, k: HiddenState, pid: usize) -> Map<
    HiddenState,
    Set<usize>,
> {
    m.insert(k, group_of(m, k).insert(pid))
}

/// The table after taking `pid` out of group `k`; a missing group stays missing.
pub open spec fn without_pid(m: Map<HiddenState, Set<usize>>, k: HiddenState, pid: usize) -> Map<
    HiddenState,
    Set<usize>,
> {
    if m.dom().contains(k) {
        m.insert(k, m[k].remove(pid))
    } else {
        m
    }
}

/// The table after adding every pid of `s` to group `k`; the group comes into
/// being only where `s` is not empty.
pub open spec fn with_pids(m: Map<HiddenState, Set<usize>>, k: HiddenState, s: Set<usize>) -> Map<
    HiddenState,
    Set<usize>,
> {
    if s == Set::<usize>::empty() {
        m
    } else {
        m.insert(k, group_of(m, k).union(s))
    }
}

/// The table after taking every pid of `s` out of group `k`; a missing group stays missing.
pub open spec fn without_pids(m: Map<HiddenState, Set<usize>>, k: HiddenState, s: Set<usize>) -> Map<
    HiddenState,
    Set<usize>,
> {
    if m.dom().contains(k) {
        m.insert(k, m[k].difference(s))
    } else {
        m
    }
}

/// Adding one more pid to a group extends the set added.
pub proof fn lemma_with_pids_insert(m: Map<HiddenState, Set<usize>>, k: HiddenState, s: Set<usize>, p: usize)
    ensures
        with_pid(with_pids(m, k, s), k, p) == with_pids(m, k, s.insert(p)),
{
    assert(s.insert(p) != Set::<usize>::empty()) by {
        assert(s.insert(p).contains(p));
    }
    if s == Set::<usize>::empty() {
        assert(group_of(m, k).union(s.insert(p)) =~= group_of(m, k).insert(p));
    } else {
        assert(group_of(m, k).union(s).insert(p) =~= group_of(m, k).union(s.insert(p)));
    }
    assert(with_pid(with_pids(m, k, s), k, p) =~= with_pids(m, k, s.insert(p)));
}

/// Taking one more pid out of a group extends the set taken out.
pub proof fn lemma_without_pids_insert(m: Map<HiddenState, Set<usize>>, k: HiddenState, s: Set<usize>, p: usize)
    ensures
        without_pid(without_pids(m, k, s), k, p) == without_pids(m, k, s.insert(p)),
{
    if m.dom().contains(k) {
        assert(m[k].difference(s).remove(p) =~= m[k].difference(s.insert(p)));
    }
    assert(without_pid(without_pids(m, k, s), k, p) =~= without_pids(m, k, s.insert(p)));
}

/// Taking out the empty set changes nothing; taking out twice takes out the union.
pub proof fn lemma_without_pids_compose(m: Map<HiddenState, Set<usize>>, k: HiddenState, s: Set<usize>, t: Set<usize>)
    ensures
        without_pids(m, k, Set::empty()) == m,
        without_pids(without_pids(m, k, s), k, t) == without_pids(m, k, s.union(t)),
{
    if m.dom().contains(k) {
        assert(m[k].difference(Set::empty()) =~= m[k]);
        assert(m.insert(k, m[k]) =~= m);
        assert(m[k].difference(s).difference(t) =~= m[k].difference(s.union(t)));
    }
    assert(without_pids(without_pids(m, k, s), k, t) =~= without_pids(m, k, s.union(t)));
}

/// Who is in a group after adding a set: those who were, and those added;
/// the other groups are untouched.
pub proof fn lemma_with_pids_members(m: Map<HiddenState, Set<usize>>, k: HiddenState, s: Set<usize>)
    ensures
        forall|p: usize| #[trigger] in_group(with_pids(m, k, s), k, p) <==> (in_group(m, k, p) || s.contains(p)),
        forall|j: HiddenState, p: usize| j != k ==> #[trigger] in_group(with_pids(m, k, s), j, p) == in_group(m, j, p),
{
    if s == Set::<usize>::empty() {
        assert forall|p: usize| !s.contains(p) by {}
    }
}

/// Who is in a group after taking out a set: those who were and are not in
/// the set; the other groups are untouched.
pub proof fn lemma_without_pids_members(m: Map<HiddenState, Set<usize>>, k: HiddenState, s: Set<usize>)
    ensures
        forall|p: usize| #[trigger] in_group(without_pids(m, k, s), k, p) <==> (in_group(m, k, p) && !s.contains(p)),
        forall|j: HiddenState, p: usize| j != k ==> #[trigger] in_group(without_pids(m, k, s), j, p) == in_group(m, j, p),
{
}

/// A map from each `HiddenState` to the set of process ids in that group.
/// A group may be absent, which is not the same as present and empty:
/// the two are told apart in the saved state.
pub struct PidTable {
    hidden: Option<HashSet<usize>>,
    not_hidden: Option<HashSet<usize>>,
    already_hidden: Option<HashSet<usize>>,
}

impl View for PidTable {
    type V = Map<HiddenState, Set<usize>>;

    closed spec fn view(&self) -> Map<HiddenState, Set<usize>> {
        Map::new(|k: HiddenState| self.slot(k) is Some, |k: HiddenState| self.slot(k)->0@)
    }
}

impl PidTable {
    pub closed spec fn slot(&self, k: HiddenState) -> Option<HashSet<usize>> {
        match k {
            HiddenState::Hidden => self.hidden,
            HiddenState::NotHidden => self.not_hidden,
            HiddenState::AlreadyHidden => self.already_hidden,
        }
    }

    /// An empty table: no group at all.
    pub fn new() -> (t: PidTable)
        ensures
            t@ == Map::<HiddenState, Set<usize>>::empty(),
    {
        let t = PidTable { hidden: None, not_hidden: None, already_hidden: None };
        assert(t@ =~= Map::<HiddenState, Set<usize>>::empty());
        t
    }

    fn add_to(slot: &mut Option<HashSet<usize>>, pid: usize)
        ensures
            (*final(slot)) is Some,
            (*final(slot))->0@ == (match *old(slot) {
                Some(s) => s@,
                None => Set::empty(),
            }).insert(pid),
    {
        match slot.take() {
            Some(mut s) => {
                s.insert(pid);
                *slot = Some(s);
            },
            None => {
                let mut s: HashSet<usize> = HashSet::new();
                s.insert(pid);
                *slot = Some(s);
            },
        }
    }

    fn remove_from(slot: &mut Option<HashSet<usize>>, pid: usize)
        ensures
            match *old(slot) {
                Some(s) => (*final(slot)) is Some && (*final(slot))->0@ == s@.remove(pid),
                None => (*final(slot)) is None,
            },
    {
        match slot.take() {
            Some(mut s) => {
                s.remove(&pid);
                *slot = Some(s);
            },
            None => {},
        }
    }

    /// Adds `pid` to group `k`, creating the group where it is missing.
    pub fn insert(&mut self, k: HiddenState, pid: usize)
        ensures
            final(self)@ == with_pid(old(self)@, k, pid),
    {
        match k {
            HiddenState::Hidden => Self::add_to(&mut self.hidden, pid),
            HiddenState::NotHidden => Self::add_to(&mut self.not_hidden, pid),
            HiddenState::AlreadyHidden => Self::add_to(&mut self.already_hidden, pid),
        }
        assert(self@ =~= with_pid(old(self)@, k, pid));
    }

    /// Takes `pid` out of group `k` where the group exists; does nothing where it does not.
    pub fn remove(&mut self, k: HiddenState, pid: usize)
        ensures
            final(self)@ == without_pid(old(self)@, k, pid),
    {
        match k {
            HiddenState::Hidden => Self::remove_from(&mut self.hidden, pid),
            HiddenState::NotHidden => Self::remove_from(&mut self.not_hidden, pid),
            HiddenState::AlreadyHidden => Self::remove_from(&mut self.already_hidden, pid),
        }
        assert(self@ =~= without_pid(old(self)@, k, pid));
    }

    /// Whether `pid` is recorded in group `k`.
    pub fn contains(&self, k: HiddenState, pid: usize) -> (res: bool)
        ensures
            res == in_group(self@, k, pid),
    {
        let slot = match k {
            HiddenState::Hidden => &self.hidden,
            HiddenState::NotHidden => &self.not_hidden,
            HiddenState::AlreadyHidden => &self.already_hidden,
        };
        match slot {
            Some(s) => s.contains(&pid),
            None => false,
        }
    }

    /// The set of group `k`, where the table has that group.
    pub fn get(&self, k: HiddenState) -> (res: Option<&HashSet<usize>>)
        ensures
            res is Some == self@.dom().contains(k),
            res is Some ==> res->0@ == self@[k],
    {
        match k {
            HiddenState::Hidden => self.hidden.as_ref(),
            HiddenState::NotHidden => self.not_hidden.as_ref(),
            HiddenState::AlreadyHidden => self.already_hidden.as_ref(),
        }
    }

    /// Sets group `k` to the given set, replacing what it held.
    pub fn put(&mut self, k: HiddenState, pids: HashSet<usize>)
        ensures
            final(self)@ == old(self)@.insert(k, pids@),
    {
        let ghost p = pids@;
        match k {
            HiddenState::Hidden => self.hidden = Some(pids),
            HiddenState::NotHidden => self.not_hidden = Some(pids),
            HiddenState::AlreadyHidden => self.already_hidden = Some(pids),
        }
        assert(self@ =~= old(self)@.insert(k, p));
    }
}

} // verus!
