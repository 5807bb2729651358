use mm::toggle::AppState;
use mm::{Action, AppInfo, HiddenState, PidTable, ToggleMode};
use std::collections::HashSet;

fn app(name: &str, pid: usize, is_hidden: bool) -> AppInfo {
    AppInfo { name: name.to_string(), pid, is_hidden }
}

fn set(pids: &[usize]) -> HashSet<usize> {
    pids.iter().copied().collect()
}

#[test]
fn toggle_switches_mode() {
    assert_eq!(ToggleMode::Hide.toggle(), ToggleMode::Show);
    assert_eq!(ToggleMode::Show.toggle(), ToggleMode::Hide);
    assert_eq!(ToggleMode::Hide.toggle().toggle(), ToggleMode::Hide);
}

#[test]
fn pid_table_groups() {
    let mut t = PidTable::new();
    assert!(t.get(HiddenState::Hidden).is_none());
    t.insert(HiddenState::Hidden, 7);
    t.insert(HiddenState::Hidden, 7);
    t.insert(HiddenState::Hidden, 9);
    assert_eq!(t.get(HiddenState::Hidden), Some(&set(&[7, 9])));
    assert!(t.contains(HiddenState::Hidden, 9));
    assert!(!t.contains(HiddenState::AlreadyHidden, 9));
    t.remove(HiddenState::Hidden, 7);
    assert_eq!(t.get(HiddenState::Hidden), Some(&set(&[9])));
    // Removing from a missing group does not create it.
    t.remove(HiddenState::AlreadyHidden, 9);
    assert!(t.get(HiddenState::AlreadyHidden).is_none());
    t.put(HiddenState::NotHidden, set(&[1, 2]));
    assert_eq!(t.get(HiddenState::NotHidden), Some(&set(&[1, 2])));
    t.remove(HiddenState::Hidden, 9);
    assert_eq!(t.get(HiddenState::Hidden), Some(&HashSet::new()));
}

#[test]
fn first_run_starts_in_hide_mode() {
    let s = AppState::restore(None);
    assert_eq!(s.mode, ToggleMode::Hide);
    assert!(s.pids.get(HiddenState::Hidden).is_none());
    assert!(s.pids.get(HiddenState::AlreadyHidden).is_none());
}

#[test]
fn restored_state_runs_the_other_mode() {
    let mut saved = AppState::new();
    saved.pids.insert(HiddenState::Hidden, 42);
    let s = AppState::restore(Some(saved));
    assert_eq!(s.mode, ToggleMode::Show);
    assert!(s.pids.contains(HiddenState::Hidden, 42));
    let mut saved = AppState::new();
    saved.mode = ToggleMode::Show;
    assert_eq!(AppState::restore(Some(saved)).mode, ToggleMode::Hide);
}

#[test]
fn hide_run_notes_already_hidden_apps() {
    let mut s = AppState::new();
    let apps = vec![app("Mail", 10, true), app("Notes", 11, false), app("Music", 12, true)];
    s.note_already_hidden(&apps);
    assert_eq!(s.pids.get(HiddenState::AlreadyHidden), Some(&set(&[10, 12])));
    assert!(s.pids.get(HiddenState::Hidden).is_none());
}

#[test]
fn hide_run_with_nothing_hidden_notes_nothing() {
    let mut s = AppState::new();
    s.note_already_hidden(&vec![app("Notes", 11, false)]);
    assert!(s.pids.get(HiddenState::AlreadyHidden).is_none());
}

#[test]
fn show_run_notes_nothing() {
    let mut s = AppState::new();
    s.mode = ToggleMode::Show;
    s.note_already_hidden(&vec![app("Mail", 10, true)]);
    assert!(s.pids.get(HiddenState::AlreadyHidden).is_none());
}

#[test]
fn hide_run_hides_visible_apps() {
    let mut s = AppState::new();
    let apps = vec![app("Mail", 10, true), app("Notes", 11, false), app("Music", 12, false)];
    s.note_already_hidden(&apps);
    let actions = s.plan(&apps);
    assert_eq!(actions, vec![Action::Hide(1), Action::Hide(2)]);
    assert_eq!(s.pids.get(HiddenState::Hidden), Some(&set(&[11, 12])));
    assert_eq!(s.mode, ToggleMode::Hide);
}

#[test]
fn hide_run_with_everything_hidden_creates_no_group() {
    let mut s = AppState::new();
    let apps = vec![app("Mail", 10, true)];
    s.note_already_hidden(&apps);
    assert_eq!(s.plan(&apps), vec![]);
    assert!(s.pids.get(HiddenState::Hidden).is_none());
}

#[test]
fn show_run_unhides_hidden_apps_but_not_already_hidden_ones() {
    let mut s = AppState::new();
    s.mode = ToggleMode::Show;
    s.pids.insert(HiddenState::AlreadyHidden, 10);
    s.pids.insert(HiddenState::Hidden, 11);
    s.pids.insert(HiddenState::Hidden, 12);
    let apps = vec![app("Mail", 10, true), app("Notes", 11, true), app("Music", 12, false)];
    let actions = s.plan(&apps);
    assert_eq!(actions, vec![Action::Unhide(1)]);
    assert_eq!(s.pids.get(HiddenState::Hidden), Some(&set(&[12])));
    assert!(s.pids.contains(HiddenState::AlreadyHidden, 10));
}

#[test]
fn show_run_without_hidden_group_leaves_it_missing() {
    let mut s = AppState::new();
    s.mode = ToggleMode::Show;
    let apps = vec![app("Notes", 11, true)];
    assert_eq!(s.plan(&apps), vec![Action::Unhide(0)]);
    assert!(s.pids.get(HiddenState::Hidden).is_none());
}

#[test]
fn show_undoes_hide_on_a_whole_cycle() {
    // First run: Hide.
    let mut s = AppState::restore(None);
    let before = vec![app("Mail", 10, true), app("Notes", 11, false), app("Music", 12, false)];
    s.note_already_hidden(&before);
    let hidden = s.plan(&before);
    assert_eq!(hidden, vec![Action::Hide(1), Action::Hide(2)]);
    // The window server carries the requests out.
    let after = vec![app("Mail", 10, true), app("Notes", 11, true), app("Music", 12, true)];
    // Second run: Show.
    let mut s = AppState::restore(Some(s));
    assert_eq!(s.mode, ToggleMode::Show);
    s.note_already_hidden(&after);
    let shown = s.plan(&after);
    assert_eq!(shown, vec![Action::Unhide(1), Action::Unhide(2)]);
    assert_eq!(s.pids.get(HiddenState::Hidden), Some(&HashSet::new()));
    assert_eq!(s.pids.get(HiddenState::AlreadyHidden), Some(&set(&[10])));
}
