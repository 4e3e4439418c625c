use pie_nix::command::{install_targets, installed_names, Command};
use pie_nix::package::{record_package, record_packages, Package, DEFAULT_PRIORITY};
use pie_nix::state::{SavedData, DEFAULT_GROUP};

fn names(list: &[&str]) -> Vec<String> {
    list.iter().map(|s| s.to_string()).collect()
}

fn pairs(records: &Vec<Package>) -> Vec<(String, u64)> {
    records.iter().map(|p| (p.name.clone(), p.priority)).collect()
}

fn expect(list: &[(&str, u64)]) -> Vec<(String, u64)> {
    list.iter().map(|(n, p)| (n.to_string(), *p)).collect()
}

fn records_in(state: &SavedData, group: &str) -> Option<Vec<(String, u64)>> {
    state.get(&group.to_string()).map(pairs)
}

#[test]
fn install_records_under_the_default_group() {
    let mut state = SavedData::new();
    let command = Command::Install {
        packages: names(&["git", "vim"]),
        temp: false,
        distros: vec![],
        priority: Some(3),
    };
    assert!(command.needs_backend());
    assert_eq!(pairs(&command.plan(&state)), expect(&[("git", 3), ("vim", 3)]));
    command.apply(&mut state, &vec![true, true]);
    assert_eq!(state.len(), 1);
    assert_eq!(state.names(), names(&["default"]));
    assert_eq!(records_in(&state, "default"), Some(expect(&[("git", 3), ("vim", 3)])));
}

#[test]
fn install_without_priority_uses_the_default() {
    let mut state = SavedData::new();
    let command =
        Command::Install { packages: names(&["git"]), temp: false, distros: vec![], priority: None };
    assert_eq!(pairs(&command.plan(&state)), expect(&[("git", 0)]));
    command.apply(&mut state, &vec![true]);
    assert_eq!(records_in(&state, DEFAULT_GROUP), Some(expect(&[("git", DEFAULT_PRIORITY)])));
}

#[test]
fn temp_install_is_asked_for_and_never_recorded() {
    let mut state = SavedData::new();
    state.insert("default".to_string(), vec![Package::new("git".to_string(), 2)]);
    let command = Command::Install {
        packages: names(&["vim", "git"]),
        temp: true,
        distros: names(&["work"]),
        priority: Some(9),
    };
    assert_eq!(pairs(&command.plan(&state)), expect(&[("vim", 9), ("git", 9)]));
    command.apply(&mut state, &vec![true, true]);
    assert_eq!(state.names(), names(&["default"]));
    assert_eq!(records_in(&state, "default"), Some(expect(&[("git", 2)])));
    assert_eq!(records_in(&state, "work"), None);
}

#[test]
fn failed_install_is_not_recorded() {
    let mut state = SavedData::new();
    let command = Command::Install {
        packages: names(&["a", "b", "c"]),
        temp: false,
        distros: vec![],
        priority: Some(1),
    };
    command.apply(&mut state, &vec![true, false, true]);
    assert_eq!(records_in(&state, "default"), Some(expect(&[("a", 1), ("c", 1)])));
}

#[test]
fn failed_install_keeps_an_earlier_record() {
    let mut state = SavedData::new();
    state.insert("default".to_string(), vec![Package::new("b".to_string(), 7)]);
    let command = Command::Install {
        packages: names(&["a", "b"]),
        temp: false,
        distros: vec![],
        priority: Some(1),
    };
    command.apply(&mut state, &vec![true, false]);
    assert_eq!(records_in(&state, "default"), Some(expect(&[("b", 7), ("a", 1)])));
}

#[test]
fn package_without_an_outcome_counts_as_failed() {
    let mut state = SavedData::new();
    let command = Command::Install {
        packages: names(&["a", "b"]),
        temp: false,
        distros: vec![],
        priority: None,
    };
    command.apply(&mut state, &vec![true]);
    assert_eq!(records_in(&state, "default"), Some(expect(&[("a", 0)])));
}

#[test]
fn install_records_under_every_named_group() {
    let mut state = SavedData::new();
    state.insert("home".to_string(), vec![Package::new("git".to_string(), 1)]);
    let command = Command::Install {
        packages: names(&["vim"]),
        temp: false,
        distros: names(&["work", "home"]),
        priority: Some(4),
    };
    command.apply(&mut state, &vec![true]);
    assert_eq!(state.names(), names(&["home", "work"]));
    assert_eq!(records_in(&state, "home"), Some(expect(&[("git", 1), ("vim", 4)])));
    assert_eq!(records_in(&state, "work"), Some(expect(&[("vim", 4)])));
    assert_eq!(records_in(&state, "default"), None);
}

#[test]
fn installing_twice_replaces_the_priority() {
    let mut state = SavedData::new();
    let first = Command::Install {
        packages: names(&["git", "vim"]),
        temp: false,
        distros: vec![],
        priority: Some(1),
    };
    first.apply(&mut state, &vec![true, true]);
    let second = Command::Install {
        packages: names(&["git"]),
        temp: false,
        distros: vec![],
        priority: Some(5),
    };
    second.apply(&mut state, &vec![true]);
    assert_eq!(records_in(&state, "default"), Some(expect(&[("vim", 1), ("git", 5)])));
}

#[test]
fn package_named_twice_in_one_install_is_recorded_once() {
    let mut state = SavedData::new();
    let command = Command::Install {
        packages: names(&["a", "b", "a"]),
        temp: false,
        distros: vec![],
        priority: Some(2),
    };
    command.apply(&mut state, &vec![true, true, true]);
    assert_eq!(records_in(&state, "default"), Some(expect(&[("b", 2), ("a", 2)])));
}

#[test]
fn install_where_nothing_installed_still_makes_the_group_known() {
    let mut state = SavedData::new();
    let command = Command::Install {
        packages: names(&["a"]),
        temp: false,
        distros: names(&["work"]),
        priority: None,
    };
    command.apply(&mut state, &vec![false]);
    assert_eq!(state.names(), names(&["work"]));
    assert_eq!(records_in(&state, "work"), Some(vec![]));
}

#[test]
fn install_targets_default_when_none_named() {
    assert_eq!(install_targets(&vec![]), names(&["default"]));
    assert_eq!(install_targets(&names(&["x", "y"])), names(&["x", "y"]));
}

#[test]
fn installed_names_keeps_successes_in_order() {
    let kept = installed_names(&names(&["a", "b", "c", "d"]), &vec![false, true, true]);
    assert_eq!(kept, names(&["b", "c"]));
    assert_eq!(installed_names(&names(&["a"]), &vec![true, true, true]), names(&["a"]));
    assert_eq!(installed_names(&vec![], &vec![true]), Vec::<String>::new());
}

#[test]
fn record_package_moves_the_name_to_the_end() {
    let mut records = vec![
        Package::new("a".to_string(), 1),
        Package::new("b".to_string(), 2),
        Package::new("a".to_string(), 3),
        Package::new("c".to_string(), 4),
    ];
    record_package(&mut records, &"a".to_string(), 9);
    assert_eq!(pairs(&records), expect(&[("b", 2), ("c", 4), ("a", 9)]));
}

#[test]
fn record_packages_records_each_in_turn() {
    let mut records = vec![Package::new("x".to_string(), 1), Package::new("y".to_string(), 2)];
    record_packages(&mut records, &names(&["y", "z"]), 5);
    assert_eq!(pairs(&records), expect(&[("x", 1), ("y", 5), ("z", 5)]));
    record_packages(&mut records, &vec![], 8);
    assert_eq!(pairs(&records), expect(&[("x", 1), ("y", 5), ("z", 5)]));
}

#[test]
fn state_record_on_repeated_target() {
    let mut state = SavedData::new();
    state.record(&names(&["a", "b"]), &names(&["g", "g"]), 1);
    assert_eq!(state.len(), 1);
    assert_eq!(records_in(&state, "g"), Some(expect(&[("a", 1), ("b", 1)])));
}
