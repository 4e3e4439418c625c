use std::collections::HashMap;

use pie_nix::command::Command;
use pie_nix::package::Package;
use pie_nix::startup::{starting_state, StateFile};
use pie_nix::state::SavedData;

type Document = HashMap<String, HashMap<String, Vec<(String, u64)>>>;

fn read(text: &str) -> StateFile {
    match serde_json::from_str::<Document>(text) {
        Ok(document) => match document.get("packages") {
            Some(groups) => {
                let mut state = SavedData::new();
                for (name, records) in groups {
                    let packages =
                        records.iter().map(|(n, p)| Package::new(n.clone(), *p)).collect();
                    state.insert(name.clone(), packages);
                }
                StateFile::Parsed(state)
            }
            None => StateFile::Corrupt,
        },
        Err(_) => StateFile::Corrupt,
    }
}

fn write(state: &SavedData) -> String {
    let mut groups: HashMap<String, Vec<(String, u64)>> = HashMap::new();
    let mut i: usize = 0;
    while i < state.len() {
        let group = state.group(i);
        let records = group.packages.iter().map(|p| (p.name.clone(), p.priority)).collect();
        groups.insert(group.name.clone(), records);
        i += 1;
    }
    let mut document: Document = HashMap::new();
    document.insert("packages".to_string(), groups);
    serde_json::to_string(&document).unwrap()
}

#[test]
fn reloaded_state_round_trips() {
    let text = r#"{"packages": {"default": [["pkgA", 1], ["pkgB", 0]]}}"#;
    let mut state = starting_state(read(text)).unwrap();
    let command = Command::Reload { distros: vec![] };
    let plan = command.plan(&state);
    assert_eq!(
        plan,
        vec![Package::new("pkgB".to_string(), 0), Package::new("pkgA".to_string(), 1)]
    );
    command.apply(&mut state, &vec![true, true]);
    let saved = write(&state);
    assert_eq!(saved, r#"{"packages":{"default":[["pkgA",1],["pkgB",0]]}}"#);
    let before: Document = serde_json::from_str(text).unwrap();
    let after: Document = serde_json::from_str(&saved).unwrap();
    assert_eq!(before, after);
}

#[test]
fn saved_state_round_trips_with_several_groups() {
    let mut state = SavedData::new();
    state.insert("home".to_string(), vec![Package::new("git".to_string(), 2)]);
    state.insert("work".to_string(), vec![]);
    state.insert(
        "lab".to_string(),
        vec![Package::new("gdb".to_string(), u64::MAX), Package::new("gcc".to_string(), 0)],
    );
    let again = starting_state(read(&write(&state))).unwrap();
    assert_eq!(again.len(), 3);
    for name in ["home", "work", "lab"] {
        assert_eq!(again.get(&name.to_string()), state.get(&name.to_string()));
    }
}

#[test]
fn malformed_content_is_a_corrupt_state_file() {
    assert!(starting_state(read("{\"packages\": [")).is_err());
    assert!(starting_state(read("not json")).is_err());
}
