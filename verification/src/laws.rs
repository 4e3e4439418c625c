//! What holds of the edits to the saved state, whatever the state and the
//! arguments: what an install leaves recorded, what a removal leaves, and
//! what both leave alone.

use vstd::prelude::*;
use crate::command::{Command, install_groups, succeeded, used_priority};
use crate::filters::{lemma_filter_apart, lemma_filter_push, lemma_filter_within};
use crate::package::{Record, named, not_among, not_named, with_package, with_packages, without_names};
use crate::state::{
    GroupView, distinct_names, knows, lemma_put, lemma_recorded_distinct, lemma_removed_distinct,
    put, recorded, records_of, removed,
};

verus! {

/// Recording a package leaves exactly one record of its name, the new one,
/// whatever was recorded of that name before.
pub proof fn lemma_record_replaces(records: Seq<Record>, name: Seq<char>, priority: u64)
    ensures
        with_package(records, name, priority).filter(named(name)) == seq![(name, priority)],
{
    let others = records.filter(not_named(name));
    lemma_filter_apart(records, not_named(name), named(name));
    lemma_filter_push(others, (name, priority), named(name));
    assert(Seq::<Record>::empty().push((name, priority)) =~= seq![(name, priority)]);
}

/// Recording a package leaves the records that `keep` holds of as they were,
/// and in their order, where `keep` holds of no record of that package.
pub proof fn lemma_record_spares(
    records: Seq<Record>,
    name: Seq<char>,
    priority: u64,
    keep: spec_fn(Record) -> bool,
)
    requires
        forall|r: Record| #[trigger] keep(r) ==> r.0 != name,
    ensures
        with_package(records, name, priority).filter(keep) == records.filter(keep),
{
    lemma_filter_within(records, not_named(name), keep);
    lemma_filter_push(records.filter(not_named(name)), (name, priority), keep);
}

/// After several packages were recorded at one priority, each of them has
/// exactly one record, at that priority.
pub proof fn lemma_record_all_replaces(
    records: Seq<Record>,
    names: Seq<Seq<char>>,
    priority: u64,
    name: Seq<char>,
)
    requires
        names.contains(name),
    ensures
        with_packages(records, names, priority).filter(named(name)) == seq![(name, priority)],
    decreases names.len(),
{
    let earlier = with_packages(records, names.drop_last(), priority);
    if names.last() == name {
        lemma_record_replaces(earlier, name, priority);
    } else {
        let i = choose|i: int| 0 <= i < names.len() && names[i] == name;
        assert(names.drop_last()[i] == name);
        lemma_record_all_replaces(records, names.drop_last(), priority, name);
        lemma_record_spares(earlier, names.last(), priority, named(name));
    }
}

/// After several packages were recorded, the records that `keep` holds of
/// are as they were, and in their order, where `keep` holds of no record of
/// those packages.
pub proof fn lemma_record_all_spares(
    records: Seq<Record>,
    names: Seq<Seq<char>>,
    priority: u64,
    keep: spec_fn(Record) -> bool,
)
    requires
        forall|r: Record| #[trigger] keep(r) ==> !names.contains(r.0),
    ensures
        with_packages(records, names, priority).filter(keep) == records.filter(keep),
    decreases names.len(),
{
    if names.len() > 0 {
        let earlier = with_packages(records, names.drop_last(), priority);
        assert forall|r: Record| #[trigger] keep(r) implies !names.drop_last().contains(r.0) by {
            if names.drop_last().contains(r.0) {
                let i = choose|i: int| 0 <= i < names.drop_last().len() && names.drop_last()[i] == r.0;
                assert(names[i] == r.0);
            }
        }
        assert forall|r: Record| #[trigger] keep(r) implies r.0 != names.last() by {
            assert(names[names.len() - 1] == names.last());
        }
        lemma_record_all_spares(records, names.drop_last(), priority, keep);
        lemma_record_spares(earlier, names.last(), priority, keep);
    }
}

/// Dropping the same packages a second time changes nothing.
pub proof fn lemma_drop_twice(records: Seq<Record>, names: Seq<Seq<char>>)
    ensures
        without_names(without_names(records, names), names) == without_names(records, names),
{
    lemma_filter_within(records, not_among(names), not_among(names));
}

/// An install under `targets` leaves, in each of them, exactly one record of
/// each package it records: the package at the install's priority.
pub proof fn lemma_recorded_in_targets(
    groups: Seq<GroupView>,
    targets: Seq<Seq<char>>,
    names: Seq<Seq<char>>,
    priority: u64,
    target: Seq<char>,
    name: Seq<char>,
)
    requires
        distinct_names(groups),
        targets.contains(target),
        names.contains(name),
    ensures
        knows(recorded(groups, targets, names, priority), target),
        records_of(recorded(groups, targets, names, priority), target).filter(named(name)) == seq![
            (name, priority),
        ],
    decreases targets.len(),
{
    let before = recorded(groups, targets.drop_last(), names, priority);
    let last = targets.last();
    let edited = with_packages(records_of(before, last), names, priority);
    lemma_recorded_distinct(groups, targets.drop_last(), names, priority);
    lemma_put(before, last, edited);
    if last == target {
        lemma_record_all_replaces(records_of(before, last), names, priority, name);
    } else {
        let i = choose|i: int| 0 <= i < targets.len() && targets[i] == target;
        assert(targets.drop_last()[i] == target);
        lemma_recorded_in_targets(groups, targets.drop_last(), names, priority, target, name);
        assert(records_of(put(before, last, edited), target) == records_of(before, target));
    }
}

/// An install under `targets` leaves every record of a package that it does
/// not record as it was, in every group, and leaves a group that is not
/// among `targets` as it was: known or unknown, with the same records.
pub proof fn lemma_recorded_spares(
    groups: Seq<GroupView>,
    targets: Seq<Seq<char>>,
    names: Seq<Seq<char>>,
    priority: u64,
    group: Seq<char>,
)
    requires
        distinct_names(groups),
    ensures
        records_of(recorded(groups, targets, names, priority), group).filter(not_among(names))
            == records_of(groups, group).filter(not_among(names)),
        !targets.contains(group) ==> records_of(recorded(groups, targets, names, priority), group)
            == records_of(groups, group),
        !targets.contains(group) ==> knows(recorded(groups, targets, names, priority), group)
            == knows(groups, group),
    decreases targets.len(),
{
    if targets.len() > 0 {
        let before = recorded(groups, targets.drop_last(), names, priority);
        let last = targets.last();
        let edited = with_packages(records_of(before, last), names, priority);
        lemma_recorded_distinct(groups, targets.drop_last(), names, priority);
        lemma_put(before, last, edited);
        lemma_recorded_spares(groups, targets.drop_last(), names, priority, group);
        if last == group {
            assert(targets[targets.len() - 1] == group);
            lemma_record_all_spares(records_of(before, last), names, priority, not_among(names));
        } else {
            assert(records_of(put(before, last, edited), group) == records_of(before, group));
            if !targets.contains(group) && targets.drop_last().contains(group) {
                let i = choose|i: int|
                    0 <= i < targets.drop_last().len() && targets.drop_last()[i] == group;
                assert(targets[i] == group);
            }
        }
    }
}

/// A removal from `targets` leaves, in each of them, the records that were
/// there before and are named by none of `names`, in their order. Each
/// target is a known group afterwards.
pub proof fn lemma_removed_in_targets(
    groups: Seq<GroupView>,
    targets: Seq<Seq<char>>,
    names: Seq<Seq<char>>,
    target: Seq<char>,
)
    requires
        distinct_names(groups),
        targets.contains(target),
    ensures
        knows(removed(groups, targets, names), target),
        records_of(removed(groups, targets, names), target) == without_names(
            records_of(groups, target),
            names,
        ),
    decreases targets.len(),
{
    let before = removed(groups, targets.drop_last(), names);
    let last = targets.last();
    let edited = without_names(records_of(before, last), names);
    lemma_removed_distinct(groups, targets.drop_last(), names);
    lemma_put(before, last, edited);
    if last == target {
        if targets.drop_last().contains(target) {
            lemma_removed_in_targets(groups, targets.drop_last(), names, target);
            lemma_drop_twice(records_of(groups, target), names);
        } else {
            lemma_removed_spares(groups, targets.drop_last(), names, target);
        }
    } else {
        let i = choose|i: int| 0 <= i < targets.len() && targets[i] == target;
        assert(targets.drop_last()[i] == target);
        lemma_removed_in_targets(groups, targets.drop_last(), names, target);
        assert(records_of(put(before, last, edited), target) == records_of(before, target));
    }
}

/// A removal from `targets` leaves a group that is not among them as it was:
/// known or unknown, with the same records.
pub proof fn lemma_removed_spares(
    groups: Seq<GroupView>,
    targets: Seq<Seq<char>>,
    names: Seq<Seq<char>>,
    group: Seq<char>,
)
    requires
        distinct_names(groups),
        !targets.contains(group),
    ensures
        records_of(removed(groups, targets, names), group) == records_of(groups, group),
        knows(removed(groups, targets, names), group) == knows(groups, group),
    decreases targets.len(),
{
    if targets.len() > 0 {
        let before = removed(groups, targets.drop_last(), names);
        let last = targets.last();
        let edited = without_names(records_of(before, last), names);
        lemma_removed_distinct(groups, targets.drop_last(), names);
        lemma_put(before, last, edited);
        assert(targets[targets.len() - 1] == last);
        if targets.drop_last().contains(group) {
            let i = choose|i: int|
                0 <= i < targets.drop_last().len() && targets.drop_last()[i] == group;
            assert(targets[i] == group);
        }
        lemma_removed_spares(groups, targets.drop_last(), names, group);
        assert(records_of(put(before, last, edited), group) == records_of(before, group));
    }
}

/// A package whose install was reported as a success is among those that
/// succeeded.
pub proof fn lemma_succeeded_holds(names: Seq<Seq<char>>, outcomes: Seq<bool>, i: int)
    requires
        0 <= i < names.len(),
        i < outcomes.len(),
        outcomes[i],
    ensures
        succeeded(names, outcomes).contains(names[i]),
    decreases names.len(),
{
    let earlier = succeeded(names.drop_last(), outcomes);
    let last = names.len() - 1;
    if i == last {
        assert(earlier.push(names.last())[earlier.len() as int] == names[i]);
    } else {
        lemma_succeeded_holds(names.drop_last(), outcomes, i);
        let at = choose|at: int| 0 <= at < earlier.len() && earlier[at] == names[i];
        if last < outcomes.len() && outcomes[last] {
            assert(earlier.push(names.last())[at] == names[i]);
        }
    }
}

/// Each of the packages that succeeded is one of the packages asked for,
/// with a success reported for it.
pub proof fn lemma_succeeded_only(names: Seq<Seq<char>>, outcomes: Seq<bool>, name: Seq<char>)
    requires
        succeeded(names, outcomes).contains(name),
    ensures
        exists|i: int| 0 <= i < names.len() && i < outcomes.len() && outcomes[i] && names[i] == name,
    decreases names.len(),
{
    if names.len() > 0 {
        let earlier = succeeded(names.drop_last(), outcomes);
        let last = names.len() - 1;
        if last < outcomes.len() && outcomes[last] && names.last() == name {
            assert(names[last] == name);
        } else {
            let at = choose|at: int|
                0 <= at < succeeded(names, outcomes).len() && succeeded(names, outcomes)[at] == name;
            assert(earlier[at] == name);
            lemma_succeeded_only(names.drop_last(), outcomes, name);
            let i = choose|i: int|
                0 <= i < names.drop_last().len() && i < outcomes.len() && outcomes[i]
                    && names.drop_last()[i] == name;
            assert(names[i] == name);
        }
    }
}

/// A temporary install leaves the saved state as it was, whatever the
/// package manager reported.
pub proof fn lemma_temp_install_keeps_state(
    command: Command,
    groups: Seq<GroupView>,
    outcomes: Seq<bool>,
)
    requires
        command matches Command::Install { temp, .. } && temp,
    ensures
        command.outcome(groups, outcomes) == groups,
{
}

/// An install that is not temporary leaves each package that installed
/// recorded exactly once, at the install's priority, in every group that
/// the install records under.
pub proof fn lemma_install_persists(
    command: Command,
    groups: Seq<GroupView>,
    outcomes: Seq<bool>,
    target: Seq<char>,
    i: int,
)
    requires
        distinct_names(groups),
        command matches Command::Install { packages, temp, distros, .. } && !temp && 0 <= i
            < packages.len() && i < outcomes.len() && outcomes[i] && install_groups(
            distros.deep_view(),
        ).contains(target),
    ensures
        knows(command.outcome(groups, outcomes), target),
        command matches Command::Install { packages, priority, .. } && records_of(
            command.outcome(groups, outcomes),
            target,
        ).filter(named(packages[i]@)) == seq![(packages[i]@, used_priority(priority))],
{
    match command {
        Command::Install { packages, temp, distros, priority } => {
            let names = succeeded(packages.deep_view(), outcomes);
            lemma_succeeded_holds(packages.deep_view(), outcomes, i);
            lemma_recorded_in_targets(
                groups,
                install_groups(distros.deep_view()),
                names,
                used_priority(priority),
                target,
                packages[i]@,
            );
        },
        _ => {},
    }
}

/// An install leaves every record of a package that did not install as it
/// was, and every group that it does not record under as it was.
pub proof fn lemma_install_spares(
    command: Command,
    groups: Seq<GroupView>,
    outcomes: Seq<bool>,
    group: Seq<char>,
)
    requires
        distinct_names(groups),
        command is Install,
    ensures
        command matches Command::Install { packages, distros, .. } && {
            let after = command.outcome(groups, outcomes);
            let names = succeeded(packages.deep_view(), outcomes);
            &&& records_of(after, group).filter(not_among(names)) == records_of(
                groups,
                group,
            ).filter(not_among(names))
            &&& !install_groups(distros.deep_view()).contains(group) ==> records_of(after, group)
                == records_of(groups, group) && knows(after, group) == knows(groups, group)
        },
{
    match command {
        Command::Install { packages, temp, distros, priority } => {
            if !temp {
                lemma_recorded_spares(
                    groups,
                    install_groups(distros.deep_view()),
                    succeeded(packages.deep_view(), outcomes),
                    used_priority(priority),
                    group,
                );
            }
        },
        _ => {},
    }
}

/// Installing a package a second time in a group replaces its priority: the
/// group then holds one record of the package, at the second priority.
pub proof fn lemma_reinstall_replaces(
    groups: Seq<GroupView>,
    group: Seq<char>,
    name: Seq<char>,
    first: u64,
    second: u64,
)
    requires
        distinct_names(groups),
    ensures
        records_of(
            recorded(recorded(groups, seq![group], seq![name], first), seq![group], seq![name], second),
            group,
        ).filter(named(name)) == seq![(name, second)],
{
    let once = recorded(groups, seq![group], seq![name], first);
    lemma_recorded_distinct(groups, seq![group], seq![name], first);
    assert(seq![group][0] == group);
    assert(seq![name][0] == name);
    lemma_recorded_in_targets(once, seq![group], seq![name], second, group, name);
}

} // verus!
