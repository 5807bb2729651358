use mm::running::RunningApps;
use mm::windowed::AppState;
use mm::windows::{collect_active_windows, ActiveWindow, WindowInfo};
use mm::{Action, AppInfo, HiddenState, PidTable, ToggleMode};
use std::collections::HashSet;

fn app(name: &str, pid: usize, is_hidden: bool) -> AppInfo {
    AppInfo { name: name.to_string(), pid, is_hidden }
}

fn entry(name: Option<&str>, pid: Option<usize>) -> WindowInfo {
    WindowInfo { name: name.map(|n| n.to_string()), pid }
}

fn window(name: &str, pid: usize) -> ActiveWindow {
    ActiveWindow { name: Some(name.to_string()), pid }
}

fn keys(ws: &[ActiveWindow]) -> Vec<(Option<String>, usize)> {
    ws.iter().map(|w| (w.name.clone(), w.pid)).collect()
}

fn set(pids: &[usize]) -> HashSet<usize> {
    pids.iter().copied().collect()
}

#[test]
fn windows_come_least_recently_used_first_once_each() {
    let entries = vec![
        entry(Some("Safari"), Some(5)),
        entry(Some("Dock"), None),
        entry(Some("Notes"), Some(6)),
        entry(Some("Safari"), Some(5)),
        entry(None, Some(7)),
    ];
    let ws = collect_active_windows(entries);
    assert_eq!(
        keys(&ws),
        vec![(None, 7), (Some("Notes".to_string()), 6), (Some("Safari".to_string()), 5)]
    );
}

#[test]
fn owner_is_placed_by_its_frontmost_window() {
    // Front to back: X, Y, X again; X was used most recently.
    let entries = vec![entry(Some("X"), Some(10)), entry(Some("Y"), Some(20)), entry(Some("X"), Some(10))];
    let ws = collect_active_windows(entries);
    assert_eq!(keys(&ws), vec![(Some("Y".to_string()), 20), (Some("X".to_string()), 10)]);
}

#[test]
fn windows_with_other_names_are_kept_apart() {
    let entries = vec![entry(Some("a"), Some(5)), entry(Some("b"), Some(5)), entry(None, Some(5))];
    let ws = collect_active_windows(entries);
    assert_eq!(
        keys(&ws),
        vec![(None, 5), (Some("b".to_string()), 5), (Some("a".to_string()), 5)]
    );
}

#[test]
fn no_windows_from_an_empty_list() {
    assert!(collect_active_windows(vec![]).is_empty());
}

#[test]
fn running_apps_follow_window_order() {
    let apps = vec![app("A", 1, false), app("B", 2, false), app("B2", 2, true), app("C", 3, false)];
    let ws = vec![window("C", 3), window("X", 99), window("B", 2), window("C", 3)];
    let r = RunningApps::new(apps, &ws);
    assert_eq!(r.windowed_pids(), &vec![3, 2]);
    assert_eq!(r.position_of(2), Some(2));
    assert_eq!(r.position_of(1), Some(0));
    assert_eq!(r.position_of(99), None);
    assert!(r.is_windowed(3));
    assert!(!r.is_windowed(1));
    assert_eq!(r.apps().len(), 4);
}

#[test]
fn window_order_keeps_first_places() {
    let s = AppState::from_parts(ToggleMode::Hide, PidTable::new(), &vec![4, 2, 4, 9, 2]);
    assert_eq!(s.window_pids(), vec![4, 2, 9]);
    assert!(AppState::new().window_pids().is_empty());
}

#[test]
fn only_a_hide_run_saves() {
    let s = AppState::new();
    assert!(s.should_save());
    let s = AppState::restore(Some(s));
    assert_eq!(s.mode, ToggleMode::Show);
    assert!(!s.should_save());
}

#[test]
fn hide_run_notes_state_and_window_order() {
    let apps = vec![app("A", 1, true), app("B", 2, false), app("C", 3, false)];
    let ws = vec![window("B", 2), window("A", 1), window("Z", 8)];
    let r = RunningApps::new(apps, &ws);
    let mut s = AppState::from_parts(ToggleMode::Hide, PidTable::new(), &vec![3]);
    s.note_state(&r, &ws);
    assert_eq!(s.pids.get(HiddenState::AlreadyHidden), Some(&set(&[1])));
    assert_eq!(s.window_pids(), vec![3, 2, 1, 8]);
    let actions = s.plan(&r);
    assert_eq!(actions, vec![Action::Hide(1)]);
    assert_eq!(s.pids.get(HiddenState::Hidden), Some(&set(&[2])));
}

#[test]
fn windowed_show_run_notes_nothing() {
    let apps = vec![app("A", 1, true)];
    let ws = vec![window("A", 1)];
    let r = RunningApps::new(apps, &ws);
    let mut s = AppState::from_parts(ToggleMode::Show, PidTable::new(), &vec![]);
    s.note_state(&r, &ws);
    assert!(s.pids.get(HiddenState::AlreadyHidden).is_none());
    assert!(s.window_pids().is_empty());
}

#[test]
fn show_run_unhides_unrecorded_then_recorded_in_reverse() {
    let apps = vec![app("A", 1, true), app("B", 2, true), app("C", 3, true), app("D", 4, true)];
    // Windows seen now: D (not recorded), B, C, A.
    let ws = vec![window("D", 4), window("B", 2), window("C", 3), window("A", 1)];
    let r = RunningApps::new(apps, &ws);
    let mut pids = PidTable::new();
    pids.insert(HiddenState::Hidden, 2);
    pids.insert(HiddenState::Hidden, 3);
    pids.insert(HiddenState::Hidden, 4);
    pids.insert(HiddenState::AlreadyHidden, 1);
    // Recorded order: A, B, C.
    let mut s = AppState::from_parts(ToggleMode::Show, pids, &vec![1, 2, 3]);
    let actions = s.plan(&r);
    assert_eq!(actions, vec![Action::Unhide(3), Action::Unhide(2), Action::Unhide(1)]);
    assert_eq!(s.pids.get(HiddenState::Hidden), Some(&HashSet::new()));
    assert_eq!(s.window_pids(), vec![1, 2, 3]);
}

#[test]
fn show_run_skips_visible_and_missing_apps() {
    let apps = vec![app("A", 1, false), app("B", 2, true)];
    let ws = vec![window("A", 1), window("B", 2)];
    let r = RunningApps::new(apps, &ws);
    let mut s = AppState::from_parts(ToggleMode::Show, PidTable::new(), &vec![5, 1, 2]);
    let actions = s.plan(&r);
    assert_eq!(actions, vec![Action::Unhide(1)]);
    assert!(s.pids.get(HiddenState::Hidden).is_none());
}

#[test]
fn show_brings_back_what_hide_hid() {
    // Hide run: B and C are visible and windowed, A was hidden already.
    let apps = vec![app("A", 1, true), app("B", 2, false), app("C", 3, false)];
    let ws = vec![window("A", 1), window("B", 2), window("C", 3)];
    let r1 = RunningApps::new(apps, &ws);
    let mut s = AppState::restore(None);
    s.note_state(&r1, &ws);
    let hidden = s.plan(&r1);
    assert_eq!(hidden, vec![Action::Hide(1), Action::Hide(2)]);
    assert!(s.should_save());
    // Show run: all three are hidden and still listed.
    let later = vec![app("A", 1, true), app("B", 2, true), app("C", 3, true)];
    let r2 = RunningApps::new(later, &ws);
    let mut s = AppState::restore(Some(s));
    s.note_state(&r2, &ws);
    let shown = s.plan(&r2);
    assert_eq!(shown, vec![Action::Unhide(2), Action::Unhide(1)]);
    assert_eq!(s.pids.get(HiddenState::Hidden), Some(&set(&[])));
    assert!(!s.should_save());
}
