//! The four commands, and what each decides: which groups it works on, what
//! it asks the package manager to install, and how it leaves the saved state.

use vstd::prelude::*;
use crate::package::{DEFAULT_PRIORITY, Package, Record};
use crate::reload::{gathered, install_order};
use crate::state::{
    DEFAULT_GROUP, Group, GroupView, SavedData, group_names, knows, position, recorded, removed,
};

verus! {

/// One invocation of the tool.
#[derive(Debug)]
pub enum Command {
    /// Install `packages`; unless `temp`, record those that installed under
    /// each of `distros` at `priority`.
    Install { packages: Vec<String>, temp: bool, distros: Vec<String>, priority: Option<u64> },
    /// Drop `packages` from the records of each of `distros`.
    Remove { packages: Vec<String>, distros: Vec<String> },
    /// Install again what `distros` record.
    Reload { distros: Vec<String> },
    /// Show what `distros` record.
    ListPackages { distros: Vec<String> },
}

/// The priority an install records at: the one given, else the default.
pub open spec fn used_priority(priority: Option<u64>) -> u64 {
    match priority {
        Some(p) => p,
        None => DEFAULT_PRIORITY,
    }
}

/// The groups an install records under: those named, else the default group.
pub open spec fn install_groups(distros: Seq<Seq<char>>) -> Seq<Seq<char>> {
    if distros.len() == 0 {
        seq![DEFAULT_GROUP@]
    } else {
        distros
    }
}

/// The groups that a removal, a reload or a listing works on: those named,
/// else every known group.
pub open spec fn chosen_groups(groups: Seq<GroupView>, distros: Seq<Seq<char>>) -> Seq<Seq<char>> {
    if distros.len() == 0 {
        group_names(groups)
    } else {
        distros
    }
}

/// Each of `names` as a record at `priority`.
pub open spec fn at_one_priority(names: Seq<Seq<char>>, priority: u64) -> Seq<Record> {
    Seq::new(names.len(), |i: int| (names[i], priority))
}

/// The names whose install was reported as a success, in the order of
/// `names`. The outcome of `names[i]` is `outcomes[i]`; a name without an
/// outcome counts as failed.
pub open spec fn succeeded(names: Seq<Seq<char>>, outcomes: Seq<bool>) -> Seq<Seq<char>>
    decreases names.len(),
{
    if names.len() == 0 {
        Seq::empty()
    } else {
        let earlier = succeeded(names.drop_last(), outcomes);
        let last = names.len() - 1;
        if last < outcomes.len() && outcomes[last] {
            earlier.push(names.last())
        } else {
            earlier
        }
    }
}

/// The known groups among `targets`, one for each target that names one, in
/// the order of `targets`.
pub open spec fn listed(groups: Seq<GroupView>, targets: Seq<Seq<char>>) -> Seq<GroupView>
    decreases targets.len(),
{
    if targets.len() == 0 {
        Seq::empty()
    } else {
        let earlier = listed(groups, targets.drop_last());
        if knows(groups, targets.last()) {
            earlier.push(groups[position(groups, targets.last())])
        } else {
            earlier
        }
    }
}

/// A copy of `names`.
pub fn copy_names(names: &Vec<String>) -> (copy: Vec<String>)
    ensures
        copy.deep_view() == names.deep_view(),
{
    let mut copy: Vec<String> = Vec::new();
    let mut i: usize = 0;
    while i < names.len()
        invariant
            i <= names.len(),
            copy.deep_view() == names.deep_view().take(i as int),
        decreases names.len() - i,
    {
        let ghost had = copy.deep_view();
        copy.push(names[i].clone());
        proof {
            assert(copy.deep_view() =~= had.push(names[i as int]@));
            assert(names.deep_view().take(i + 1) =~= had.push(names[i as int]@));
        }
        i += 1;
    }
    proof {
        assert(names.deep_view().take(i as int) =~= names.deep_view());
    }
    copy
}

/// The groups an install records under.
pub fn install_targets(distros: &Vec<String>) -> (targets: Vec<String>)
    ensures
        targets.deep_view() == install_groups(distros.deep_view()),
{
    if distros.len() == 0 {
        let mut targets: Vec<String> = Vec::new();
        targets.push(DEFAULT_GROUP.to_owned());
        assert(targets.deep_view() =~= seq![DEFAULT_GROUP@]);
        targets
    } else {
        copy_names(distros)
    }
}

/// The names whose install succeeded.
pub fn installed_names(names: &Vec<String>, outcomes: &Vec<bool>) -> (kept: Vec<String>)
    ensures
        kept.deep_view() == succeeded(names.deep_view(), outcomes@),
{
    let ghost all = names.deep_view();
    let mut kept: Vec<String> = Vec::new();
    let mut i: usize = 0;
    proof {
        assert(all.take(0) =~= Seq::<Seq<char>>::empty());
        assert(kept.deep_view() =~= Seq::<Seq<char>>::empty());
    }
    while i < names.len()
        invariant
            i <= names.len(),
            all == names.deep_view(),
            kept.deep_view() == succeeded(all.take(i as int), outcomes@),
        decreases names.len() - i,
    {
        let ghost had = kept.deep_view();
        proof {
            let next = all.take(i + 1);
            assert(next.drop_last() =~= all.take(i as int));
            assert(next.last() == names[i as int]@);
        }
        if i < outcomes.len() && outcomes[i] {
            kept.push(names[i].clone());
            assert(kept.deep_view() =~= had.push(names[i as int]@));
        }
        i += 1;
    }
    proof {
        assert(all.take(i as int) =~= all);
    }
    kept
}

impl SavedData {
    /// The groups that a removal, a reload or a listing works on.
    pub fn targets(&self, distros: &Vec<String>) -> (targets: Vec<String>)
        ensures
            targets.deep_view() == chosen_groups(self@, distros.deep_view()),
    {
        if distros.len() == 0 {
            self.names()
        } else {
            copy_names(distros)
        }
    }

    /// A copy of each known group among `targets`, in the order of `targets`.
    pub fn listing(&self, targets: &Vec<String>) -> (groups: Vec<Group>)
        requires
            self.wf(),
        ensures
            groups.deep_view() == listed(self@, targets.deep_view()),
    {
        let ghost all = targets.deep_view();
        let mut groups: Vec<Group> = Vec::new();
        let mut t: usize = 0;
        proof {
            assert(all.take(0) =~= Seq::<Seq<char>>::empty());
            assert(groups.deep_view() =~= Seq::<GroupView>::empty());
        }
        while t < targets.len()
            invariant
                t <= targets.len(),
                all == targets.deep_view(),
                self.wf(),
                groups.deep_view() == listed(self@, all.take(t as int)),
            decreases targets.len() - t,
        {
            let ghost had = groups.deep_view();
            proof {
                let next = all.take(t + 1);
                assert(next.drop_last() =~= all.take(t as int));
                assert(next.last() == targets[t as int]@);
            }
            match self.find(&targets[t]) {
                Some(i) => {
                    groups.push(self.group(i).clone());
                    assert(groups.deep_view() =~= had.push(self@[i as int]));
                },
                None => {},
            }
            t += 1;
        }
        proof {
            assert(all.take(t as int) =~= all);
        }
        groups
    }
}

impl Command {
    /// Whether the command can only run where the package manager is at hand.
    pub open spec fn installs(&self) -> bool {
        self is Install || self is Reload
    }

    /// The saved state after the command, where `outcomes` tells for each
    /// package of an install whether the package manager installed it.
    pub open spec fn outcome(&self, groups: Seq<GroupView>, outcomes: Seq<bool>) -> Seq<GroupView> {
        match self {
            Command::Install { packages, temp, distros, priority } => {
                if *temp {
                    groups
                } else {
                    recorded(
                        groups,
                        install_groups(distros.deep_view()),
                        succeeded(packages.deep_view(), outcomes),
                        used_priority(*priority),
                    )
                }
            },
            Command::Remove { packages, distros } => removed(
                groups,
                chosen_groups(groups, distros.deep_view()),
                packages.deep_view(),
            ),
            Command::Reload { .. } => groups,
            Command::ListPackages { .. } => groups,
        }
    }

    /// Whether the command can only run where the package manager is at hand:
    /// an install and a reload do, a removal and a listing do not.
    pub fn needs_backend(&self) -> (needed: bool)
        ensures
            needed == self.installs(),
    {
        match self {
            Command::Install { .. } => true,
            Command::Reload { .. } => true,
            Command::Remove { .. } => false,
            Command::ListPackages { .. } => false,
        }
    }

    /// What the package manager is asked to install, in order. An install
    /// asks for its packages as given; a reload for the records of its
    /// groups in install order; the other commands for nothing.
    pub fn plan(&self, state: &SavedData) -> (requests: Vec<Package>)
        requires
            state.wf(),
        ensures
            match self {
                Command::Install { packages, priority, .. } => requests.deep_view()
                    == at_one_priority(packages.deep_view(), used_priority(*priority)),
                Command::Reload { distros } => install_order(
                    gathered(state@, chosen_groups(state@, distros.deep_view())),
                    requests.deep_view(),
                ),
                Command::Remove { .. } => requests.deep_view() == Seq::<Record>::empty(),
                Command::ListPackages { .. } => requests.deep_view() == Seq::<Record>::empty(),
            },
    {
        match self {
            Command::Install { packages, priority, .. } => {
                let used: u64 = match priority {
                    Some(p) => *p,
                    None => DEFAULT_PRIORITY,
                };
                let mut requests: Vec<Package> = Vec::new();
                let mut i: usize = 0;
                while i < packages.len()
                    invariant
                        i <= packages.len(),
                        used == used_priority(*priority),
                        requests.deep_view() == at_one_priority(packages.deep_view(), used).take(
                            i as int,
                        ),
                    decreases packages.len() - i,
                {
                    let ghost had = requests.deep_view();
                    requests.push(Package::new(packages[i].clone(), used));
                    proof {
                        assert(requests.deep_view() =~= had.push((packages[i as int]@, used)));
                        assert(at_one_priority(packages.deep_view(), used).take(i + 1) =~= had.push(
                            (packages[i as int]@, used),
                        ));
                    }
                    i += 1;
                }
                proof {
                    let all = at_one_priority(packages.deep_view(), used);
                    assert(all.take(i as int) =~= all);
                }
                requests
            },
            Command::Reload { distros } => {
                let targets = state.targets(distros);
                state.reload_order(&targets)
            },
            Command::Remove { .. } => {
                let requests: Vec<Package> = Vec::new();
                assert(requests.deep_view() =~= Seq::<Record>::empty());
                requests
            },
            Command::ListPackages { .. } => {
                let requests: Vec<Package> = Vec::new();
                assert(requests.deep_view() =~= Seq::<Record>::empty());
                requests
            },
        }
    }

    /// Brings the saved state up to date once the requests of `plan` were
    /// made: `outcomes[i]` tells whether request `i` succeeded.
    pub fn apply(&self, state: &mut SavedData, outcomes: &Vec<bool>)
        requires
            old(state).wf(),
        ensures
            final(state).wf(),
            final(state)@ == self.outcome(old(state)@, outcomes@),
    {
        match self {
            Command::Install { packages, temp, distros, priority } => {
                if !*temp {
                    let used: u64 = match priority {
                        Some(p) => *p,
                        None => DEFAULT_PRIORITY,
                    };
                    let names = installed_names(packages, outcomes);
                    let targets = install_targets(distros);
                    state.record(&names, &targets, used);
                }
            },
            Command::Remove { packages, distros } => {
                let targets = state.targets(distros);
                state.remove(packages, &targets);
            },
            Command::Reload { .. } => {},
            Command::ListPackages { .. } => {},
        }
    }

    /// What a listing shows: a copy of each known group among those chosen.
    /// The other commands show nothing.
    pub fn report(&self, state: &SavedData) -> (groups: Vec<Group>)
        requires
            state.wf(),
        ensures
            groups.deep_view() == match self {
                Command::ListPackages { distros } => listed(
                    state@,
                    chosen_groups(state@, distros.deep_view()),
                ),
                _ => Seq::<GroupView>::empty(),
            },
    {
        match self {
            Command::ListPackages { distros } => {
                let targets = state.targets(distros);
                state.listing(&targets)
            },
            _ => {
                let groups: Vec<Group> = Vec::new();
                assert(groups.deep_view() =~= Seq::<GroupView>::empty());
                groups
            },
        }
    }
}

} // verus!
