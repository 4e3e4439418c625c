//! Package records and the two edits a list of records supports: recording a
//! package at a priority, and dropping the packages of a removal list.

use vstd::prelude::*;
use crate::filters::lemma_filter_push;

verus! {

/// Priority given to a package when the caller names none.
pub const DEFAULT_PRIORITY: u64 = 0;

/// What a record is to the contracts: the package's name and its priority.
pub type Record = (Seq<char>, u64);

/// One recorded package: the package manager's identifier and the priority
/// at which it is installed again.
#[derive(Debug, PartialEq, Eq)]
pub struct Package {
    pub name: String,
    pub priority: u64,
}

impl View for Package {
    type V = Record;

    open spec fn view(&self) -> Record {
        (self.name@, self.priority)
    }
}

impl DeepView for Package {
    type V = Record;

    open spec fn deep_view(&self) -> Record {
        self@
    }
}

impl Package {
    /// A record of `name` at `priority`.
    pub fn new(name: String, priority: u64) -> (p: Package)
        ensures
            p@ == (name@, priority),
    {
        Package { name, priority }
    }
}

impl Clone for Package {
    fn clone(&self) -> (p: Package)
        ensures
            p@ == self@,
    {
        Package { name: self.name.clone(), priority: self.priority }
    }
}

/// Holds of the records named `name`.
pub open spec fn named(name: Seq<char>) -> spec_fn(Record) -> bool {
    |r: Record| r.0 == name
}

/// Holds of the records not named `name`.
pub open spec fn not_named(name: Seq<char>) -> spec_fn(Record) -> bool {
    |r: Record| r.0 != name
}

/// Holds of the records whose name is none of `names`.
pub open spec fn not_among(names: Seq<Seq<char>>) -> spec_fn(Record) -> bool {
    |r: Record| !names.contains(r.0)
}

/// `records` after `name` was recorded at `priority`: every earlier record of
/// that name is gone and the new one stands last.
pub open spec fn with_package(records: Seq<Record>, name: Seq<char>, priority: u64) -> Seq<Record> {
    records.filter(not_named(name)).push((name, priority))
}

/// `records` after each of `names` was recorded at `priority`, first to last.
pub open spec fn with_packages(records: Seq<Record>, names: Seq<Seq<char>>, priority: u64) -> Seq<
    Record,
>
    decreases names.len(),
{
    if names.len() == 0 {
        records
    } else {
        with_package(with_packages(records, names.drop_last(), priority), names.last(), priority)
    }
}

/// `records` without those whose name is one of `names`; the others keep
/// their order.
pub open spec fn without_names(records: Seq<Record>, names: Seq<Seq<char>>) -> Seq<Record> {
    records.filter(not_among(names))
}

/// Whether `name` is one of `names`.
pub fn contains_name(names: &Vec<String>, name: &String) -> (found: bool)
    ensures
        found == names.deep_view().contains(name@),
{
    let mut i: usize = 0;
    while i < names.len()
        invariant
            i <= names.len(),
            forall|j: int| 0 <= j < i ==> names.deep_view()[j] != name@,
        decreases names.len() - i,
    {
        if names[i] == *name {
            assert(names.deep_view()[i as int] == name@);
            return true;
        }
        i += 1;
    }
    false
}

/// Records `name` at `priority`, in place of any record of that name.
pub fn record_package(records: &mut Vec<Package>, name: &String, priority: u64)
    ensures
        final(records).deep_view() == with_package(old(records).deep_view(), name@, priority),
{
    let ghost before = records.deep_view();
    let mut kept: Vec<Package> = Vec::new();
    let mut i: usize = 0;
    proof {
        reveal(Seq::filter);
        assert(before.take(0) =~= Seq::<Record>::empty());
    }
    while i < records.len()
        invariant
            i <= records.len(),
            records.deep_view() == before,
            kept.deep_view() == before.take(i as int).filter(not_named(name@)),
        decreases records.len() - i,
    {
        let ghost so_far = kept.deep_view();
        proof {
            lemma_filter_push(before.take(i as int), before[i as int], not_named(name@));
            assert(before.take(i + 1) =~= before.take(i as int).push(before[i as int]));
        }
        if !(records[i].name == *name) {
            kept.push(records[i].clone());
            assert(kept.deep_view() =~= so_far.push(before[i as int]));
        }
        i += 1;
    }
    let ghost filtered = kept.deep_view();
    kept.push(Package::new(name.clone(), priority));
    proof {
        assert(before.take(i as int) =~= before);
        assert(kept.deep_view() =~= filtered.push((name@, priority)));
    }
    *records = kept;
}

/// Records each of `names` at `priority`, first to last.
pub fn record_packages(records: &mut Vec<Package>, names: &Vec<String>, priority: u64)
    ensures
        final(records).deep_view() == with_packages(
            old(records).deep_view(),
            names.deep_view(),
            priority,
        ),
{
    let ghost before = records.deep_view();
    let mut i: usize = 0;
    proof {
        assert(names.deep_view().take(0) =~= Seq::<Seq<char>>::empty());
    }
    while i < names.len()
        invariant
            i <= names.len(),
            records.deep_view() == with_packages(before, names.deep_view().take(i as int), priority),
        decreases names.len() - i,
    {
        proof {
            let next = names.deep_view().take(i + 1);
            assert(next.drop_last() =~= names.deep_view().take(i as int));
            assert(next.last() == names[i as int]@);
        }
        record_package(records, &names[i], priority);
        i += 1;
    }
    proof {
        assert(names.deep_view().take(i as int) =~= names.deep_view());
    }
}

/// Drops every record whose name is one of `names`.
pub fn drop_packages(records: &mut Vec<Package>, names: &Vec<String>)
    ensures
        final(records).deep_view() == without_names(old(records).deep_view(), names.deep_view()),
{
    let ghost before = records.deep_view();
    let mut kept: Vec<Package> = Vec::new();
    let mut i: usize = 0;
    proof {
        reveal(Seq::filter);
        assert(before.take(0) =~= Seq::<Record>::empty());
    }
    while i < records.len()
        invariant
            i <= records.len(),
            records.deep_view() == before,
            kept.deep_view() == before.take(i as int).filter(not_among(names.deep_view())),
        decreases records.len() - i,
    {
        let ghost so_far = kept.deep_view();
        proof {
            lemma_filter_push(before.take(i as int), before[i as int], not_among(names.deep_view()));
            assert(before.take(i + 1) =~= before.take(i as int).push(before[i as int]));
        }
        if !contains_name(names, &records[i].name) {
            kept.push(records[i].clone());
            assert(kept.deep_view() =~= so_far.push(before[i as int]));
        }
        i += 1;
    }
    proof {
        assert(before.take(i as int) =~= before);
    }
    *records = kept;
}

/// Adds a copy of each record of `more` behind those of `records`.
pub fn extend_records(records: &mut Vec<Package>, more: &Vec<Package>)
    ensures
        final(records).deep_view() == old(records).deep_view() + more.deep_view(),
{
    let ghost before = records.deep_view();
    let mut i: usize = 0;
    proof {
        assert(before + more.deep_view().take(0) =~= before);
    }
    while i < more.len()
        invariant
            i <= more.len(),
            records.deep_view() == before + more.deep_view().take(i as int),
        decreases more.len() - i,
    {
        let ghost had = records.deep_view();
        records.push(more[i].clone());
        proof {
            assert(records.deep_view() =~= had.push(more[i as int]@));
            assert(more.deep_view().take(i + 1) =~= more.deep_view().take(i as int).push(
                more[i as int]@,
            ));
        }
        i += 1;
    }
    proof {
        assert(more.deep_view().take(i as int) =~= more.deep_view());
    }
}

} // verus!
