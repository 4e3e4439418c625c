//! The order in which recorded packages are installed again: the records of
//! the chosen groups, lowest priority first, records of equal priority in the
//! order in which they were gathered.

use vstd::prelude::*;
use crate::filters::{lemma_filter_count, lemma_filter_insert, lemma_filter_none, lemma_filter_push};
use crate::package::{Package, Record, extend_records};
use crate::state::{GroupView, SavedData, records_of};

verus! {

/// Holds of the records at priority `priority`.
pub open spec fn at_priority(priority: u64) -> spec_fn(Record) -> bool {
    |r: Record| r.1 == priority
}

/// The records of each of `targets`, one group after the other. A target
/// that names no known group gives nothing.
pub open spec fn gathered(groups: Seq<GroupView>, targets: Seq<Seq<char>>) -> Seq<Record>
    decreases targets.len(),
{
    if targets.len() == 0 {
        Seq::empty()
    } else {
        gathered(groups, targets.drop_last()) + records_of(groups, targets.last())
    }
}

/// No record stands before one of lower priority.
pub open spec fn ascending(records: Seq<Record>) -> bool {
    forall|i: int, j: int|
        0 <= i < j < records.len() ==> (#[trigger] records[i]).1 <= (#[trigger] records[j]).1
}

/// At each priority, `after` holds the records that `before` holds, in the
/// same order.
pub open spec fn same_at_each_priority(before: Seq<Record>, after: Seq<Record>) -> bool {
    forall|p: u64| #[trigger] after.filter(at_priority(p)) == before.filter(at_priority(p))
}

/// `after` is `before` put in install order: ascending by priority, and
/// otherwise undisturbed.
pub open spec fn install_order(before: Seq<Record>, after: Seq<Record>) -> bool {
    ascending(after) && same_at_each_priority(before, after)
}

/// Install order holds what was there: each record as often as before.
pub proof fn lemma_install_order_permutes(before: Seq<Record>, after: Seq<Record>)
    requires
        install_order(before, after),
    ensures
        after.to_multiset() == before.to_multiset(),
{
    assert forall|r: Record| after.to_multiset().count(r) == before.to_multiset().count(r) by {
        lemma_filter_count(after, at_priority(r.1), r);
        lemma_filter_count(before, at_priority(r.1), r);
        assert(after.filter(at_priority(r.1)) == before.filter(at_priority(r.1)));
    }
    assert(after.to_multiset() =~= before.to_multiset());
}

/// Two ascending sequences that hold the same records at each priority, in
/// the same order, are one sequence.
pub proof fn lemma_ascending_determined(a: Seq<Record>, b: Seq<Record>)
    requires
        ascending(a),
        ascending(b),
        same_at_each_priority(a, b),
    ensures
        a == b,
    decreases a.len(),
{
    if a.len() == 0 {
        if b.len() > 0 {
            let p = b[0].1;
            assert(b.filter(at_priority(p)) == a.filter(at_priority(p)));
            b.lemma_filter_contains(at_priority(p), 0);
            a.lemma_filter_len(at_priority(p));
        }
        assert(a =~= b);
    } else {
        let m = a.last().1;
        let pred = at_priority(m);
        let a_front = a.drop_last();
        assert(a =~= a_front.push(a.last()));
        assert(b.filter(pred) == a.filter(pred));
        lemma_filter_push(a_front, a.last(), pred);
        assert(a.filter(pred).last() == a.last());
        assert(b.filter(pred).contains(a.last())) by {
            assert(b.filter(pred)[b.filter(pred).len() - 1] == a.last());
        }
        b.lemma_filter_contains_rev(pred, a.last());
        let k = choose|k: int| 0 <= k < b.len() && b[k] == a.last();
        let q = b.last().1;
        assert(q >= m) by {
            if k < b.len() - 1 {
                assert(b[k].1 <= b[b.len() - 1].1);
            }
        }
        if q > m {
            assert(b.filter(at_priority(q)) == a.filter(at_priority(q)));
            b.lemma_filter_contains(at_priority(q), b.len() - 1);
            a.lemma_filter_contains_rev(at_priority(q), b.last());
            let j = choose|j: int| 0 <= j < a.len() && a[j] == b.last();
            if j < a.len() - 1 {
                assert(a[j].1 <= a[a.len() - 1].1);
            }
            assert(false);
        }
        let b_front = b.drop_last();
        assert(b =~= b_front.push(b.last()));
        lemma_filter_push(b_front, b.last(), pred);
        let a_kept = a_front.filter(pred);
        let b_kept = b_front.filter(pred);
        assert(a_kept.push(a.last()) == b_kept.push(b.last()));
        assert(a_kept =~= a_kept.push(a.last()).drop_last());
        assert(b_kept =~= b_kept.push(b.last()).drop_last());
        assert(a.last() == a_kept.push(a.last()).last());
        assert(b.last() == b_kept.push(b.last()).last());
        assert forall|p: u64| #[trigger]
            b_front.filter(at_priority(p)) == a_front.filter(at_priority(p)) by {
            if p != m {
                lemma_filter_push(a_front, a.last(), at_priority(p));
                lemma_filter_push(b_front, b.last(), at_priority(p));
                assert(b.filter(at_priority(p)) == a.filter(at_priority(p)));
            }
        }
        assert(ascending(a_front)) by {
            assert forall|i: int, j: int| 0 <= i < j < a_front.len() implies (
            #[trigger] a_front[i]).1 <= (#[trigger] a_front[j]).1 by {
                assert(a[i].1 <= a[j].1);
            }
        }
        assert(ascending(b_front)) by {
            assert forall|i: int, j: int| 0 <= i < j < b_front.len() implies (
            #[trigger] b_front[i]).1 <= (#[trigger] b_front[j]).1 by {
                assert(b[i].1 <= b[j].1);
            }
        }
        lemma_ascending_determined(a_front, b_front);
    }
}

/// Install order is one order: two sequences that are both `before` in
/// install order are equal.
pub proof fn lemma_install_order_unique(before: Seq<Record>, a: Seq<Record>, b: Seq<Record>)
    requires
        install_order(before, a),
        install_order(before, b),
    ensures
        a == b,
{
    assert forall|p: u64| #[trigger] b.filter(at_priority(p)) == a.filter(at_priority(p)) by {
        assert(a.filter(at_priority(p)) == before.filter(at_priority(p)));
        assert(b.filter(at_priority(p)) == before.filter(at_priority(p)));
    }
    lemma_ascending_determined(a, b);
}

/// Puts `package` behind the records of `sorted` whose priority is not above
/// its own, and before the others.
pub fn insert_by_priority(sorted: &mut Vec<Package>, package: Package)
    requires
        ascending(old(sorted).deep_view()),
    ensures
        install_order(old(sorted).deep_view().push(package@), final(sorted).deep_view()),
{
    let ghost before = sorted.deep_view();
    let ghost x = package@;
    let mut at: usize = 0;
    while at < sorted.len() && sorted[at].priority <= package.priority
        invariant
            at <= sorted.len(),
            sorted.deep_view() == before,
            x == package@,
            forall|j: int| 0 <= j < at ==> (#[trigger] before[j]).1 <= x.1,
        decreases sorted.len() - at,
    {
        assert(before[at as int] == sorted[at as int]@);
        at += 1;
    }
    sorted.insert(at, package);
    proof {
        let after = sorted.deep_view();
        assert(after =~= before.insert(at as int, x));
        assert(forall|j: int| at <= j < before.len() ==> (#[trigger] before[j]).1 > x.1) by {
            if at < before.len() {
                assert(before[at as int].1 > x.1);
            }
        }
        assert(ascending(after)) by {
            assert forall|i: int, j: int| 0 <= i < j < after.len() implies (#[trigger] after[i]).1
                <= (#[trigger] after[j]).1 by {
                let bi = if i < at { i } else { i - 1 };
                let bj = if j < at { j } else { j - 1 };
                if i != at && j != at {
                    assert(before[bi].1 <= before[bj].1);
                } else if i == at {
                    assert(before[bj].1 > x.1);
                } else {
                    assert(before[bi].1 <= x.1);
                }
            }
        }
        assert forall|p: u64| #[trigger]
            after.filter(at_priority(p)) == before.push(x).filter(at_priority(p)) by {
            let pred = at_priority(p);
            let tail = before.skip(at as int);
            lemma_filter_insert(before, at as int, x, pred);
            lemma_filter_push(before.take(at as int), x, pred);
            lemma_filter_push(before, x, pred);
            if pred(x) {
                assert forall|k: int| 0 <= k < tail.len() implies !pred(#[trigger] tail[k]) by {
                    assert(before[at + k] == tail[k]);
                }
                lemma_filter_none(tail, pred);
                assert(after.filter(pred) =~= before.filter(pred).push(x));
            }
        }
    }
}

/// `records` in install order.
pub fn sort_by_priority(records: &Vec<Package>) -> (sorted: Vec<Package>)
    ensures
        install_order(records.deep_view(), sorted.deep_view()),
{
    let ghost all = records.deep_view();
    let mut sorted: Vec<Package> = Vec::new();
    let mut i: usize = 0;
    proof {
        assert(all.take(0) =~= sorted.deep_view());
    }
    while i < records.len()
        invariant
            i <= records.len(),
            all == records.deep_view(),
            install_order(all.take(i as int), sorted.deep_view()),
        decreases records.len() - i,
    {
        let ghost so_far = sorted.deep_view();
        insert_by_priority(&mut sorted, records[i].clone());
        proof {
            let next = all.take(i + 1);
            assert(next =~= all.take(i as int).push(all[i as int]));
            assert forall|p: u64| #[trigger]
                sorted.deep_view().filter(at_priority(p)) == next.filter(at_priority(p)) by {
                lemma_filter_push(so_far, all[i as int], at_priority(p));
                lemma_filter_push(all.take(i as int), all[i as int], at_priority(p));
                assert(so_far.filter(at_priority(p)) == all.take(i as int).filter(at_priority(p)));
            }
        }
        i += 1;
    }
    proof {
        assert(all.take(i as int) =~= all);
    }
    sorted
}

impl SavedData {
    /// The records of each of `targets`, one group after the other; a target
    /// that names no known group is passed over.
    pub fn gather(&self, targets: &Vec<String>) -> (records: Vec<Package>)
        requires
            self.wf(),
        ensures
            records.deep_view() == gathered(self@, targets.deep_view()),
    {
        let ghost all = targets.deep_view();
        let mut records: Vec<Package> = Vec::new();
        let mut t: usize = 0;
        proof {
            assert(all.take(0) =~= Seq::<Seq<char>>::empty());
            assert(records.deep_view() =~= Seq::<Record>::empty());
        }
        while t < targets.len()
            invariant
                t <= targets.len(),
                all == targets.deep_view(),
                self.wf(),
                records.deep_view() == gathered(self@, all.take(t as int)),
            decreases targets.len() - t,
        {
            proof {
                let next = all.take(t + 1);
                assert(next.drop_last() =~= all.take(t as int));
                assert(next.last() == targets[t as int]@);
            }
            let ghost so_far = records.deep_view();
            match self.get(&targets[t]) {
                Some(found) => {
                    extend_records(&mut records, found);
                },
                None => {
                    assert(so_far + Seq::<Record>::empty() =~= so_far);
                },
            }
            t += 1;
        }
        proof {
            assert(all.take(t as int) =~= all);
        }
        records
    }

    /// What a reload installs, in order: the records of each of `targets`,
    /// ascending by priority, records of equal priority in the order of
    /// `targets` and, within a group, of the group's list.
    pub fn reload_order(&self, targets: &Vec<String>) -> (records: Vec<Package>)
        requires
            self.wf(),
        ensures
            install_order(gathered(self@, targets.deep_view()), records.deep_view()),
    {
        let all = self.gather(targets);
        sort_by_priority(&all)
    }
}

} // verus!
