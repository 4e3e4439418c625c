use pie_nix::command::Command;
use pie_nix::package::{contains_name, drop_packages, Package};
use pie_nix::state::SavedData;

fn names(list: &[&str]) -> Vec<String> {
    list.iter().map(|s| s.to_string()).collect()
}

fn packages(list: &[(&str, u64)]) -> Vec<Package> {
    list.iter().map(|(n, p)| Package::new(n.to_string(), *p)).collect()
}

fn sample() -> SavedData {
    let mut state = SavedData::new();
    state.insert("home".to_string(), packages(&[("git", 1), ("vim", 2), ("gcc", 3)]));
    state.insert("work".to_string(), packages(&[("vim", 5), ("git", 0)]));
    state.insert("lab".to_string(), packages(&[("gdb", 4)]));
    state
}

fn records_in(state: &SavedData, group: &str) -> Option<Vec<Package>> {
    state.get(&group.to_string()).map(|found| found.iter().map(|p| p.clone()).collect())
}

#[test]
fn remove_from_a_named_group_leaves_the_others() {
    let mut state = sample();
    let command = Command::Remove { packages: names(&["vim"]), distros: names(&["home"]) };
    assert!(!command.needs_backend());
    assert!(command.plan(&state).is_empty());
    command.apply(&mut state, &vec![]);
    assert_eq!(state.names(), names(&["home", "work", "lab"]));
    assert_eq!(records_in(&state, "home"), Some(packages(&[("git", 1), ("gcc", 3)])));
    assert_eq!(records_in(&state, "work"), Some(packages(&[("vim", 5), ("git", 0)])));
    assert_eq!(records_in(&state, "lab"), Some(packages(&[("gdb", 4)])));
}

#[test]
fn remove_without_groups_works_on_every_known_group() {
    let mut state = sample();
    let command = Command::Remove { packages: names(&["git", "gdb"]), distros: vec![] };
    command.apply(&mut state, &vec![]);
    assert_eq!(state.names(), names(&["home", "work", "lab"]));
    assert_eq!(records_in(&state, "home"), Some(packages(&[("vim", 2), ("gcc", 3)])));
    assert_eq!(records_in(&state, "work"), Some(packages(&[("vim", 5)])));
    assert_eq!(records_in(&state, "lab"), Some(vec![]));
}

#[test]
fn remove_of_an_unrecorded_name_changes_no_record() {
    let mut state = sample();
    let command = Command::Remove { packages: names(&["emacs"]), distros: vec![] };
    command.apply(&mut state, &vec![true]);
    assert_eq!(records_in(&state, "home"), Some(packages(&[("git", 1), ("vim", 2), ("gcc", 3)])));
    assert_eq!(records_in(&state, "work"), Some(packages(&[("vim", 5), ("git", 0)])));
    assert_eq!(records_in(&state, "lab"), Some(packages(&[("gdb", 4)])));
}

#[test]
fn remove_from_an_unknown_group_makes_it_known_and_empty() {
    let mut state = sample();
    let command = Command::Remove { packages: names(&["git"]), distros: names(&["attic"]) };
    command.apply(&mut state, &vec![]);
    assert_eq!(state.names(), names(&["home", "work", "lab", "attic"]));
    assert_eq!(records_in(&state, "attic"), Some(vec![]));
    assert_eq!(records_in(&state, "home"), Some(packages(&[("git", 1), ("vim", 2), ("gcc", 3)])));
}

#[test]
fn remove_on_an_empty_state_without_groups_does_nothing() {
    let mut state = SavedData::new();
    let command = Command::Remove { packages: names(&["git"]), distros: vec![] };
    command.apply(&mut state, &vec![]);
    assert_eq!(state.len(), 0);
}

#[test]
fn remove_drops_every_record_of_a_name() {
    let mut records = packages(&[("a", 1), ("b", 2), ("a", 3), ("c", 4), ("b", 5)]);
    drop_packages(&mut records, &names(&["a", "c"]));
    assert_eq!(records, packages(&[("b", 2), ("b", 5)]));
    drop_packages(&mut records, &vec![]);
    assert_eq!(records, packages(&[("b", 2), ("b", 5)]));
}

#[test]
fn state_remove_twice_is_remove_once() {
    let mut once = sample();
    once.remove(&names(&["vim"]), &names(&["home", "work"]));
    let mut twice = sample();
    twice.remove(&names(&["vim"]), &names(&["home", "work", "home"]));
    assert_eq!(records_in(&once, "home"), records_in(&twice, "home"));
    assert_eq!(records_in(&once, "work"), records_in(&twice, "work"));
    assert_eq!(records_in(&once, "home"), Some(packages(&[("git", 1), ("gcc", 3)])));
    assert_eq!(records_in(&once, "work"), Some(packages(&[("git", 0)])));
}

#[test]
fn contains_name_finds_whole_names_only() {
    let list = names(&["git", "vim"]);
    assert!(contains_name(&list, &"vim".to_string()));
    assert!(!contains_name(&list, &"vi".to_string()));
    assert!(!contains_name(&vec![], &"vim".to_string()));
}
