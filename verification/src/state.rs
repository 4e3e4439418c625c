//! The saved state: named groups, each with its ordered list of package
//! records. No two groups share a name.

use vstd::prelude::*;
use crate::package::{
    Package, Record, drop_packages, extend_records, record_packages, with_packages, without_names,
};

verus! {

/// Name of the group that an install records under when the caller names none.
pub const DEFAULT_GROUP: &'static str = "default";

/// What a group is to the contracts: its name and its records, in order.
pub struct GroupView {
    pub name: Seq<char>,
    pub packages: Seq<Record>,
}

/// A named bucket of package records.
#[derive(Debug, PartialEq, Eq)]
pub struct Group {
    pub name: String,
    pub packages: Vec<Package>,
}

impl View for Group {
    type V = GroupView;

    open spec fn view(&self) -> GroupView {
        GroupView { name: self.name@, packages: self.packages.deep_view() }
    }
}

impl DeepView for Group {
    type V = GroupView;

    open spec fn deep_view(&self) -> GroupView {
        self@
    }
}

impl Clone for Group {
    fn clone(&self) -> (g: Group)
        ensures
            g@ == self@,
    {
        let mut packages: Vec<Package> = Vec::new();
        assert(packages.deep_view() =~= Seq::<Record>::empty());
        extend_records(&mut packages, &self.packages);
        assert(packages.deep_view() =~= self.packages.deep_view());
        Group { name: self.name.clone(), packages }
    }
}

/// No two groups share a name.
pub open spec fn distinct_names(groups: Seq<GroupView>) -> bool {
    forall|i: int, j: int|
        0 <= i < j < groups.len() ==> (#[trigger] groups[i]).name != (#[trigger] groups[j]).name
}

/// The groups' names, in the order of the groups.
pub open spec fn group_names(groups: Seq<GroupView>) -> Seq<Seq<char>> {
    Seq::new(groups.len(), |i: int| groups[i].name)
}

/// Whether a group named `name` is among `groups`.
pub open spec fn knows(groups: Seq<GroupView>, name: Seq<char>) -> bool {
    exists|i: int| 0 <= i < groups.len() && (#[trigger] groups[i]).name == name
}

/// Where a group named `name` stands among `groups`.
pub open spec fn position(groups: Seq<GroupView>, name: Seq<char>) -> int {
    choose|i: int| 0 <= i < groups.len() && (#[trigger] groups[i]).name == name
}

/// The records of the group named `name`; none where no such group is known.
pub open spec fn records_of(groups: Seq<GroupView>, name: Seq<char>) -> Seq<Record> {
    if knows(groups, name) {
        groups[position(groups, name)].packages
    } else {
        Seq::empty()
    }
}

/// `groups` with `packages` as the records of the group named `name`. A
/// known group keeps its place; an unknown one is added last.
pub open spec fn put(groups: Seq<GroupView>, name: Seq<char>, packages: Seq<Record>) -> Seq<
    GroupView,
> {
    if knows(groups, name) {
        groups.update(position(groups, name), GroupView { name, packages })
    } else {
        groups.push(GroupView { name, packages })
    }
}

/// `groups` after each of `names` was recorded at `priority` under each of
/// `targets`, first target to last.
pub open spec fn recorded(
    groups: Seq<GroupView>,
    targets: Seq<Seq<char>>,
    names: Seq<Seq<char>>,
    priority: u64,
) -> Seq<GroupView>
    decreases targets.len(),
{
    if targets.len() == 0 {
        groups
    } else {
        let before = recorded(groups, targets.drop_last(), names, priority);
        let target = targets.last();
        put(before, target, with_packages(records_of(before, target), names, priority))
    }
}

/// `groups` after the records named by `names` were dropped from each of
/// `targets`, first target to last.
pub open spec fn removed(groups: Seq<GroupView>, targets: Seq<Seq<char>>, names: Seq<Seq<char>>) -> Seq<
    GroupView,
>
    decreases targets.len(),
{
    if targets.len() == 0 {
        groups
    } else {
        let before = removed(groups, targets.drop_last(), names);
        let target = targets.last();
        put(before, target, without_names(records_of(before, target), names))
    }
}

/// Among groups with distinct names, the group at `i` is the one that its
/// name finds.
pub proof fn lemma_position_unique(groups: Seq<GroupView>, i: int)
    requires
        distinct_names(groups),
        0 <= i < groups.len(),
    ensures
        knows(groups, groups[i].name),
        position(groups, groups[i].name) == i,
        records_of(groups, groups[i].name) == groups[i].packages,
{
    let p = position(groups, groups[i].name);
    assert(0 <= p < groups.len() && groups[p].name == groups[i].name);
    if p < i {
        assert(groups[p].name != groups[i].name);
    } else if i < p {
        assert(groups[i].name != groups[p].name);
    }
}

/// `put` keeps the names distinct, sets the records of the group it names and
/// leaves every other group as it was.
pub proof fn lemma_put(groups: Seq<GroupView>, name: Seq<char>, packages: Seq<Record>)
    requires
        distinct_names(groups),
    ensures
        distinct_names(put(groups, name, packages)),
        knows(put(groups, name, packages), name),
        records_of(put(groups, name, packages), name) == packages,
        forall|other: Seq<char>|
            other != name ==> knows(put(groups, name, packages), other) == knows(groups, other),
        forall|other: Seq<char>|
            other != name ==> #[trigger] records_of(put(groups, name, packages), other)
                == records_of(groups, other),
{
    let after = put(groups, name, packages);
    let at = if knows(groups, name) {
        position(groups, name)
    } else {
        groups.len() as int
    };
    assert(0 <= at < after.len());
    assert(after[at] == GroupView { name, packages });
    assert(after.len() >= groups.len());
    assert(forall|i: int| 0 <= i < after.len() && i != at ==> after[i] == groups[i]);
    assert(forall|i: int| 0 <= i < groups.len() && i != at ==> groups[i].name != name) by {
        if knows(groups, name) {
            assert forall|i: int| 0 <= i < groups.len() && i != at implies groups[i].name
                != name by {
                lemma_position_unique(groups, i);
            }
        }
    }
    assert(distinct_names(after)) by {
        assert forall|i: int, j: int| 0 <= i < j < after.len() implies (#[trigger] after[i]).name
            != (#[trigger] after[j]).name by {
            if i != at && j != at {
                assert(groups[i].name != groups[j].name);
            }
        }
    }
    lemma_position_unique(after, at);
    assert forall|other: Seq<char>| other != name implies knows(after, other) == knows(
        groups,
        other,
    ) && #[trigger] records_of(after, other) == records_of(groups, other) by {
        if knows(groups, other) {
            let i = position(groups, other);
            assert(after[i] == groups[i]);
            lemma_position_unique(groups, i);
            lemma_position_unique(after, i);
        } else if knows(after, other) {
            let i = position(after, other);
            assert(after[i] == groups[i]);
        }
    }
}

/// Recording keeps the groups' names distinct.
pub proof fn lemma_recorded_distinct(
    groups: Seq<GroupView>,
    targets: Seq<Seq<char>>,
    names: Seq<Seq<char>>,
    priority: u64,
)
    requires
        distinct_names(groups),
    ensures
        distinct_names(recorded(groups, targets, names, priority)),
    decreases targets.len(),
{
    if targets.len() > 0 {
        lemma_recorded_distinct(groups, targets.drop_last(), names, priority);
        let before = recorded(groups, targets.drop_last(), names, priority);
        let target = targets.last();
        lemma_put(before, target, with_packages(records_of(before, target), names, priority));
    }
}

/// Removing keeps the groups' names distinct.
pub proof fn lemma_removed_distinct(
    groups: Seq<GroupView>,
    targets: Seq<Seq<char>>,
    names: Seq<Seq<char>>,
)
    requires
        distinct_names(groups),
    ensures
        distinct_names(removed(groups, targets, names)),
    decreases targets.len(),
{
    if targets.len() > 0 {
        lemma_removed_distinct(groups, targets.drop_last(), names);
        let before = removed(groups, targets.drop_last(), names);
        let target = targets.last();
        lemma_put(before, target, without_names(records_of(before, target), names));
    }
}

/// The saved state: the groups in the order in which they became known.
#[derive(Debug)]
pub struct SavedData {
    groups: Vec<Group>,
}

impl View for SavedData {
    type V = Seq<GroupView>;

    closed spec fn view(&self) -> Seq<GroupView> {
        self.groups.deep_view()
    }
}

impl SavedData {
    /// The state's invariant: no two groups share a name.
    pub open spec fn wf(&self) -> bool {
        distinct_names(self@)
    }

    /// The state that knows no group.
    pub fn new() -> (state: SavedData)
        ensures
            state@ == Seq::<GroupView>::empty(),
            state.wf(),
    {
        let state = SavedData { groups: Vec::new() };
        assert(state@ =~= Seq::<GroupView>::empty());
        state
    }

    /// How many groups are known.
    pub fn len(&self) -> (n: usize)
        ensures
            n == self@.len(),
    {
        self.groups.len()
    }

    /// The group at `index`, in the order in which the groups became known.
    pub fn group(&self, index: usize) -> (g: &Group)
        requires
            index < self@.len(),
        ensures
            g@ == self@[index as int],
    {
        &self.groups[index]
    }

    /// Where the group named `name` stands, if it is known.
    pub fn find(&self, name: &String) -> (at: Option<usize>)
        requires
            self.wf(),
        ensures
            at is Some == knows(self@, name@),
            at is Some ==> at.unwrap() == position(self@, name@),
    {
        let mut i: usize = 0;
        while i < self.groups.len()
            invariant
                i <= self.groups.len(),
                self.wf(),
                forall|j: int| 0 <= j < i ==> (#[trigger] self@[j]).name != name@,
            decreases self.groups.len() - i,
        {
            if self.groups[i].name == *name {
                proof {
                    lemma_position_unique(self@, i as int);
                }
                return Some(i);
            }
            i += 1;
        }
        None
    }

    /// The records of the group named `name`, if it is known.
    pub fn get(&self, name: &String) -> (found: Option<&Vec<Package>>)
        requires
            self.wf(),
        ensures
            found is Some == knows(self@, name@),
            found is Some ==> found.unwrap().deep_view() == records_of(self@, name@),
    {
        match self.find(name) {
            Some(i) => Some(&self.groups[i].packages),
            None => None,
        }
    }

    /// Makes `packages` the records of the group named `name`, which becomes
    /// known if it was not.
    pub fn insert(&mut self, name: String, packages: Vec<Package>)
        requires
            old(self).wf(),
        ensures
            final(self).wf(),
            final(self)@ == put(old(self)@, name@, packages.deep_view()),
    {
        let ghost before = self@;
        proof {
            lemma_put(before, name@, packages.deep_view());
        }
        match self.find(&name) {
            Some(i) => {
                self.groups.set(i, Group { name, packages });
                assert(self@ =~= put(before, name@, packages.deep_view()));
            },
            None => {
                self.groups.push(Group { name, packages });
                assert(self@ =~= put(before, name@, packages.deep_view()));
            },
        }
    }

    /// Records each of `names` at `priority` under each of `targets`, in place
    /// of any record of the same name there. A target that is not yet known
    /// becomes a group; no other group changes.
    pub fn record(&mut self, names: &Vec<String>, targets: &Vec<String>, priority: u64)
        requires
            old(self).wf(),
        ensures
            final(self).wf(),
            final(self)@ == recorded(
                old(self)@,
                targets.deep_view(),
                names.deep_view(),
                priority,
            ),
    {
        let ghost before = self@;
        let ghost all = targets.deep_view();
        let mut t: usize = 0;
        proof {
            assert(all.take(0) =~= Seq::<Seq<char>>::empty());
        }
        while t < targets.len()
            invariant
                t <= targets.len(),
                all == targets.deep_view(),
                self.wf(),
                self@ == recorded(before, all.take(t as int), names.deep_view(), priority),
            decreases targets.len() - t,
        {
            let ghost now = self@;
            let ghost target = targets[t as int]@;
            let ghost edited = with_packages(records_of(now, target), names.deep_view(), priority);
            proof {
                let next = all.take(t + 1);
                assert(next.drop_last() =~= all.take(t as int));
                assert(next.last() == target);
                lemma_put(now, target, edited);
            }
            match self.find(&targets[t]) {
                Some(i) => {
                    record_packages(&mut self.groups[i].packages, names, priority);
                    assert(self@ =~= put(now, target, edited));
                },
                None => {
                    let mut packages: Vec<Package> = Vec::new();
                    assert(packages.deep_view() =~= Seq::<Record>::empty());
                    record_packages(&mut packages, names, priority);
                    self.groups.push(Group { name: targets[t].clone(), packages });
                    assert(self@ =~= put(now, target, edited));
                },
            }
            t += 1;
        }
        proof {
            assert(all.take(t as int) =~= all);
        }
    }

    /// Drops the records named by `names` from each of `targets`. A target
    /// that is not yet known becomes an empty group; no other group changes.
    pub fn remove(&mut self, names: &Vec<String>, targets: &Vec<String>)
        requires
            old(self).wf(),
        ensures
            final(self).wf(),
            final(self)@ == removed(old(self)@, targets.deep_view(), names.deep_view()),
    {
        let ghost before = self@;
        let ghost all = targets.deep_view();
        let mut t: usize = 0;
        proof {
            assert(all.take(0) =~= Seq::<Seq<char>>::empty());
        }
        while t < targets.len()
            invariant
                t <= targets.len(),
                all == targets.deep_view(),
                self.wf(),
                self@ == removed(before, all.take(t as int), names.deep_view()),
            decreases targets.len() - t,
        {
            let ghost now = self@;
            let ghost target = targets[t as int]@;
            let ghost edited = without_names(records_of(now, target), names.deep_view());
            proof {
                let next = all.take(t + 1);
                assert(next.drop_last() =~= all.take(t as int));
                assert(next.last() == target);
                lemma_put(now, target, edited);
            }
            match self.find(&targets[t]) {
                Some(i) => {
                    drop_packages(&mut self.groups[i].packages, names);
                    assert(self@ =~= put(now, target, edited));
                },
                None => {
                    let mut packages: Vec<Package> = Vec::new();
                    assert(packages.deep_view() =~= Seq::<Record>::empty());
                    drop_packages(&mut packages, names);
                    self.groups.push(Group { name: targets[t].clone(), packages });
                    assert(self@ =~= put(now, target, edited));
                },
            }
            t += 1;
        }
        proof {
            assert(all.take(t as int) =~= all);
        }
    }

    /// The names of the known groups, in the order of the groups.
    pub fn names(&self) -> (names: Vec<String>)
        ensures
            names.deep_view() == group_names(self@),
    {
        let mut names: Vec<String> = Vec::new();
        let mut i: usize = 0;
        while i < self.groups.len()
            invariant
                i <= self.groups.len(),
                names.deep_view() == group_names(self@).take(i as int),
            decreases self.groups.len() - i,
        {
            let ghost had = names.deep_view();
            names.push(self.groups[i].name.clone());
            proof {
                assert(names.deep_view() =~= had.push(self@[i as int].name));
                assert(group_names(self@).take(i + 1) =~= had.push(self@[i as int].name));
            }
            i += 1;
        }
        proof {
            assert(group_names(self@).take(i as int) =~= group_names(self@));
        }
        names
    }
}

} // verus!
