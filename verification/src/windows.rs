//! The on-screen windows, as the window server lists them, turned into the
//! windows the program works with.
use vstd::prelude::*;

verus! {

broadcast use vstd::std_specs::hash::group_hash_axioms;

/// One entry of the window server's list: the owner's name and process id,
/// each where the entry has one.
pub struct WindowInfo {
    pub name: Option<String>,
    pub pid: Option<usize>,
}

/// A window with an owning process.
pub struct ActiveWindow {
    pub name: Option<String>,
    pub pid: usize,
}

/// The text of an optional name.
pub open spec fn name_view(name: Option<String>) -> Option<Seq<char>> {
    match name {
        Some(s) => Some(s@),
        None => None,
    }
}

/// What tells two windows apart: the owner's name and process id.
pub open spec fn window_key(w: ActiveWindow) -> (Option<Seq<char>>, usize) {
    (name_view(w.name), w.pid)
}

/// The distinct windows of `entries`, front to back: an entry without a
/// process id is dropped, and a window equal (by name and process id) to one
/// in front of it is dropped too, so each window stands at its frontmost place.
pub open spec fn frontmost_keys(entries: Seq<WindowInfo>) -> Seq<(Option<Seq<char>>, usize)>
    decreases entries.len(),
{
    if entries.len() == 0 {
        seq![]
    } else {
        let prev = frontmost_keys(entries.drop_last());
        match entries.last().pid {
            Some(pid) => {
                let key = (name_view(entries.last().name), pid);
                if prev.contains(key) {
                    prev
                } else {
                    prev.push(key)
                }
            },
            None => prev,
        }
    }
}

/// The windows in order of last use: least recently used first, each window
/// ranked by its frontmost (most recently used) entry.
pub open spec fn active_window_keys(entries: Seq<WindowInfo>) -> Seq<(Option<Seq<char>>, usize)> {
    frontmost_keys(entries).reverse()
}

/// Whether the window server's entry `e` is a window with owner name and
/// process id `key`.
pub open spec fn entry_has_key(e: WindowInfo, key: (Option<Seq<char>>, usize)) -> bool {
    e.pid == Some(key.1) && name_view(e.name) == key.0
}

/// Whether window `newer` was used more recently than window `older` in the
/// list `entries` (front to back): every entry of `older` has an entry of
/// `newer` in front of it.
pub open spec fn used_more_recently(
    entries: Seq<WindowInfo>,
    newer: (Option<Seq<char>>, usize),
    older: (Option<Seq<char>>, usize),
) -> bool {
    forall|i: int|
        0 <= i < entries.len() && entry_has_key(#[trigger] entries[i], older) ==> exists|j: int|
            0 <= j < i && entry_has_key(#[trigger] entries[j], newer)
}

proof fn lemma_frontmost_keys(entries: Seq<WindowInfo>)
    ensures
        forall|k: (Option<Seq<char>>, usize)|
            #[trigger] frontmost_keys(entries).contains(k) <==> exists|i: int|
                0 <= i < entries.len() && entry_has_key(#[trigger] entries[i], k),
        frontmost_keys(entries).no_duplicates(),
        forall|x: int, y: int, i: int|
            0 <= x < y < frontmost_keys(entries).len() && 0 <= i < entries.len() && entry_has_key(
                #[trigger] entries[i],
                #[trigger] frontmost_keys(entries)[y],
            ) ==> exists|j: int|
                0 <= j < i && entry_has_key(#[trigger] entries[j], #[trigger] frontmost_keys(entries)[x]),
    decreases entries.len(),
{
    if entries.len() > 0 {
        let n = entries.len();
        let prev = entries.drop_last();
        lemma_frontmost_keys(prev);
        let f = frontmost_keys(entries);
        let fp = frontmost_keys(prev);
        assert forall|i: int| 0 <= i < prev.len() implies prev[i] == entries[i] by {}
        assert forall|k: (Option<Seq<char>>, usize)|
            #[trigger] f.contains(k) <==> exists|i: int| 0 <= i < entries.len() && entry_has_key(#[trigger] entries[i], k) by {
            if f.contains(k) {
                let q = choose|q: int| 0 <= q < f.len() && f[q] == k;
                if q < fp.len() {
                    assert(fp[q] == k);
                    assert(fp.contains(k));
                    let i = choose|i: int| 0 <= i < prev.len() && entry_has_key(#[trigger] prev[i], k);
                    assert(entry_has_key(entries[i], k));
                } else {
                    assert(entry_has_key(entries[n - 1], k));
                }
            }
            if exists|i: int| 0 <= i < entries.len() && entry_has_key(#[trigger] entries[i], k) {
                let i = choose|i: int| 0 <= i < entries.len() && entry_has_key(#[trigger] entries[i], k);
                if i < n - 1 {
                    assert(entry_has_key(prev[i], k));
                    assert(fp.contains(k));
                    let q = choose|q: int| 0 <= q < fp.len() && fp[q] == k;
                    assert(f[q] == k);
                } else if fp.contains(k) {
                    let q = choose|q: int| 0 <= q < fp.len() && fp[q] == k;
                    assert(f[q] == k);
                } else {
                    assert(f[f.len() - 1] == k);
                }
            }
        }
        assert forall|x: int, y: int, i: int|
            0 <= x < y < f.len() && 0 <= i < entries.len() && entry_has_key(#[trigger] entries[i], #[trigger] f[y]) implies exists|j: int|
            0 <= j < i && entry_has_key(#[trigger] entries[j], #[trigger] f[x]) by {
            if y < fp.len() {
                assert(f[y] == fp[y] && f[x] == fp[x]);
                if i < n - 1 {
                    assert(entry_has_key(prev[i], fp[y]));
                    let j = choose|j: int| 0 <= j < i && entry_has_key(#[trigger] prev[j], #[trigger] fp[x]);
                    assert(entry_has_key(entries[j], f[x]));
                } else {
                    assert(fp.contains(fp[y]));
                    let i2 = choose|i2: int| 0 <= i2 < prev.len() && entry_has_key(#[trigger] prev[i2], fp[y]);
                    let j = choose|j: int| 0 <= j < i2 && entry_has_key(#[trigger] prev[j], #[trigger] fp[x]);
                    assert(entry_has_key(entries[j], f[x]));
                }
            } else {
                assert(!fp.contains(f[y]));
                if i < n - 1 {
                    assert(entry_has_key(prev[i], f[y]));
                    assert(false);
                }
                assert(f[x] == fp[x]);
                assert(fp.contains(fp[x]));
                let j = choose|j: int| 0 <= j < prev.len() && entry_has_key(#[trigger] prev[j], fp[x]);
                assert(entry_has_key(entries[j], f[x]));
            }
        }
    }
}

/// What the active windows are, over all inputs: exactly the (owner name,
/// process id) pairs of the entries that have a process id, each once, in
/// order of last use: for `x < y` the window at `y` was used more recently
/// than the one at `x`, so the least recently used window comes first.
pub proof fn lemma_active_windows(entries: Seq<WindowInfo>)
    ensures
        forall|k: (Option<Seq<char>>, usize)|
            #[trigger] active_window_keys(entries).contains(k) <==> exists|i: int|
                0 <= i < entries.len() && entry_has_key(#[trigger] entries[i], k),
        active_window_keys(entries).no_duplicates(),
        forall|x: int, y: int|
            0 <= x < y < active_window_keys(entries).len() ==> used_more_recently(
                entries,
                #[trigger] active_window_keys(entries)[y],
                #[trigger] active_window_keys(entries)[x],
            ),
{
    lemma_frontmost_keys(entries);
    let f = frontmost_keys(entries);
    let r = active_window_keys(entries);
    let len = f.len();
    assert(r.len() == len);
    assert forall|q: int| 0 <= q < len implies #[trigger] r[q] == f[len - 1 - q] by {}
    assert forall|k: (Option<Seq<char>>, usize)| #[trigger] r.contains(k) <==> f.contains(k) by {
        if r.contains(k) {
            let q = choose|q: int| 0 <= q < r.len() && r[q] == k;
            assert(f[len - 1 - q] == k);
        }
        if f.contains(k) {
            let q = choose|q: int| 0 <= q < f.len() && f[q] == k;
            assert(r[len - 1 - q] == k);
        }
    }
    assert forall|a: int, b: int| 0 <= a < r.len() && 0 <= b < r.len() && a != b implies r[a] != r[b] by {
        assert(r[a] == f[len - 1 - a] && r[b] == f[len - 1 - b]);
    }
    assert forall|x: int, y: int|
        0 <= x < y < r.len() implies used_more_recently(entries, #[trigger] r[y], #[trigger] r[x]) by {
        let fx = len - 1 - y;
        let fy = len - 1 - x;
        assert(r[x] == f[fy] && r[y] == f[fx]);
        assert forall|i: int| 0 <= i < entries.len() && entry_has_key(#[trigger] entries[i], r[x]) implies exists|j: int|
            0 <= j < i && entry_has_key(#[trigger] entries[j], r[y]) by {
            assert(entry_has_key(entries[i], f[fy]));
            let j = choose|j: int| 0 <= j < i && entry_has_key(#[trigger] entries[j], #[trigger] f[fx]);
            assert(entry_has_key(entries[j], r[y]));
        }
    }
}

fn same_name(a: &Option<String>, b: &Option<String>) -> (res: bool)
    ensures
        res == (name_view(*a) == name_view(*b)),
{
    match (a, b) {
        (Some(x), Some(y)) => x.eq(y),
        (None, None) => true,
        _ => false,
    }
}

fn has_window(windows: &Vec<ActiveWindow>, name: &Option<String>, pid: usize) -> (res: bool)
    ensures
        res == windows@.map_values(|w: ActiveWindow| window_key(w)).contains((name_view(*name), pid)),
{
    let ghost keys = windows@.map_values(|w: ActiveWindow| window_key(w));
    let n = windows.len();
    for i in 0..n
        invariant
            n == windows.len(),
            keys == windows@.map_values(|w: ActiveWindow| window_key(w)),
            forall|j: int| 0 <= j < i ==> keys[j] != (name_view(*name), pid),
    {
        if windows[i].pid == pid && same_name(&windows[i].name, name) {
            assert(keys[i as int] == (name_view(*name), pid));
            return true;
        }
    }
    false
}

fn clone_name(name: &Option<String>) -> (res: Option<String>)
    ensures
        name_view(res) == name_view(*name),
{
    match name {
        Some(s) => Some(s.clone()),
        None => None,
    }
}

/// The windows the program works with, from the window server's list in the
/// order it gives (front to back, the most recently used first): each window
/// once, at the place of its frontmost entry, those without an owning process
/// left out, and the whole in order of last use, least recently used first.
pub fn collect_active_windows(entries: Vec<WindowInfo>) -> (windows: Vec<ActiveWindow>)
    ensures
        windows@.map_values(|w: ActiveWindow| window_key(w)) == active_window_keys(entries@),
{
    // Front to back, keeping the first (frontmost) entry of each window.
    let mut kept: Vec<ActiveWindow> = Vec::new();
    let n = entries.len();
    for i in 0..n
        invariant
            n == entries.len(),
            kept@.map_values(|w: ActiveWindow| window_key(w)) == frontmost_keys(entries@.take(i as int)),
    {
        let ghost next = entries@.take(i + 1);
        assert(next.drop_last() =~= entries@.take(i as int));
        assert(next.last() == entries@[i as int]);
        match entries[i].pid {
            Some(pid) => {
                if !has_window(&kept, &entries[i].name, pid) {
                    let ghost old_kept = kept@;
                    let w = ActiveWindow { name: clone_name(&entries[i].name), pid };
                    kept.push(w);
                    assert(kept@.map_values(|w: ActiveWindow| window_key(w)) =~= old_kept.map_values(
                        |w: ActiveWindow| window_key(w),
                    ).push(window_key(w)));
                }
            },
            None => {},
        }
    }
    assert(entries@.take(n as int) =~= entries@);
    // Then in the reverse order: least recently used first.
    let ghost keys = kept@.map_values(|w: ActiveWindow| window_key(w));
    let ghost len = kept.len() as int;
    let mut windows: Vec<ActiveWindow> = Vec::new();
    assert(keys.subrange(len, len).reverse() =~= Seq::<(Option<Seq<char>>, usize)>::empty());
    while kept.len() > 0
        invariant
            kept.len() <= len,
            len == keys.len(),
            kept@.map_values(|w: ActiveWindow| window_key(w)) == keys.take(kept.len() as int),
            windows@.map_values(|w: ActiveWindow| window_key(w)) == keys.subrange(kept.len() as int, len).reverse(),
        decreases kept.len(),
    {
        let ghost k = kept.len() - 1;
        let ghost old_windows = windows@;
        let ghost old_kept = kept@;
        let w = kept.pop().unwrap();
        assert(window_key(w) == old_kept.map_values(|w: ActiveWindow| window_key(w))[k]);
        assert(window_key(w) == keys[k]);
        assert(kept@.map_values(|w: ActiveWindow| window_key(w)) =~= keys.take(k));
        windows.push(w);
        assert(windows@.map_values(|w: ActiveWindow| window_key(w)) =~= old_windows.map_values(
            |w: ActiveWindow| window_key(w),
        ).push(window_key(w)));
        assert(keys.subrange(k + 1, len).reverse().push(keys[k]) =~= keys.subrange(k, len).reverse());
    }
    assert(keys.subrange(0, len) =~= keys);
    windows
}

} // verus!
