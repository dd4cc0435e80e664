//! Putting reports in the order of their versions. Reports of one version keep their order.

use vstd::prelude::*;

use crate::processing_result::Versioned;

verus! {

/// The versions do not go down.
pub open spec fn is_sorted<T: Versioned>(reports: Seq<T>) -> bool {
    forall|i: int, j: int|
        0 <= i <= j < reports.len() ==> reports[i].spec_version() <= reports[j].spec_version()
}

/// The reports of one version, in their order.
pub open spec fn with_version<T: Versioned>(reports: Seq<T>, version: u64) -> Seq<T> {
    reports.filter(|report: T| report.spec_version() == version)
}

/// The same reports in the order of their versions, those of one version in the order that they
/// had.
pub open spec fn is_stable_sort<T: Versioned>(reports: Seq<T>, sorted: Seq<T>) -> bool {
    &&& is_sorted(sorted)
    &&& forall|version: u64| #[trigger]
        with_version(sorted, version) == with_version(reports, version)
}

proof fn lemma_with_version_add<T: Versioned>(a: Seq<T>, b: Seq<T>, version: u64)
    ensures
        with_version(a + b, version) == with_version(a, version) + with_version(b, version),
{
    Seq::filter_distributes_over_add(a, b, |report: T| report.spec_version() == version);
}

proof fn lemma_with_version_one<T: Versioned>(report: T, version: u64)
    ensures
        with_version(seq![report], version) == if report.spec_version() == version {
            seq![report]
        } else {
            Seq::empty()
        },
{
    reveal(Seq::filter);
    assert(seq![report].drop_last() =~= Seq::<T>::empty());
    assert(with_version(seq![report].drop_last(), version) =~= Seq::<T>::empty());
    assert(seq![report].last() == report);
    assert(with_version(seq![report], version) =~= if report.spec_version() == version {
        seq![report]
    } else {
        Seq::empty()
    });
}

proof fn lemma_with_version_none<T: Versioned>(reports: Seq<T>, version: u64)
    requires
        forall|i: int| 0 <= i < reports.len() ==> #[trigger] reports[i].spec_version() != version,
    ensures
        with_version(reports, version) == Seq::<T>::empty(),
    decreases reports.len(),
{
    reveal(Seq::filter);
    if reports.len() > 0 {
        assert(reports.last() == reports[reports.len() - 1]);
        lemma_with_version_none(reports.drop_last(), version);
    }
}

/// One step of a merge from the back: the last report of `a` or of `b` moves to the front of
/// what is merged already.
proof fn lemma_merge_step<T: Versioned>(
    a: Seq<T>,
    b: Seq<T>,
    merged: Seq<T>,
    from_a: bool,
    version: u64,
)
    requires
        is_sorted(b),
        from_a ==> a.len() > 0 && (b.len() > 0 ==> b.last().spec_version()
            < a.last().spec_version()),
        !from_a ==> b.len() > 0,
    ensures
        from_a ==> with_version(a, version) + with_version(b, version) + with_version(
            merged,
            version,
        ) == with_version(a.drop_last(), version) + with_version(b, version) + with_version(
            seq![a.last()] + merged,
            version,
        ),
        !from_a ==> with_version(a, version) + with_version(b, version) + with_version(
            merged,
            version,
        ) == with_version(a, version) + with_version(b.drop_last(), version) + with_version(
            seq![b.last()] + merged,
            version,
        ),
{
    if from_a {
        let x = a.last();
        lemma_with_version_add(a.drop_last(), seq![x], version);
        assert(a.drop_last() + seq![x] =~= a);
        lemma_with_version_add(seq![x], merged, version);
        lemma_with_version_one(x, version);
        if x.spec_version() == version {
            lemma_with_version_none(b, version);
        }
        assert(with_version(a, version) + with_version(b, version) + with_version(merged, version)
            =~= with_version(a.drop_last(), version) + with_version(b, version) + with_version(
            seq![x] + merged,
            version,
        ));
    } else {
        let y = b.last();
        lemma_with_version_add(b.drop_last(), seq![y], version);
        assert(b.drop_last() + seq![y] =~= b);
        lemma_with_version_add(seq![y], merged, version);
        assert(with_version(a, version) + with_version(b, version) + with_version(merged, version)
            =~= with_version(a, version) + with_version(b.drop_last(), version) + with_version(
            seq![y] + merged,
            version,
        ));
    }
}

/// Every report in `a` is of a version no higher than those in `b`.
spec fn is_below<T: Versioned>(a: Seq<T>, b: Seq<T>) -> bool {
    forall|i: int, j: int|
        0 <= i < a.len() && 0 <= j < b.len() ==> (#[trigger] a[i]).spec_version() <= (
        #[trigger] b[j]).spec_version()
}

fn reversed<T>(reports: Vec<T>) -> (turned: Vec<T>)
    ensures
        turned@ == reports@.reverse(),
{
    let mut rest = reports;
    let mut turned: Vec<T> = Vec::new();
    while rest.len() > 0
        invariant
            rest@.len() <= reports@.len(),
            rest@ == reports@.take(rest@.len() as int),
            turned@ == reports@.skip(rest@.len() as int).reverse(),
        decreases rest.len(),
    {
        if let Some(report) = rest.pop() {
            turned.push(report);
            assert(turned@ =~= reports@.skip(rest@.len() as int).reverse());
        }
    }
    assert(turned@ =~= reports@.reverse());
    turned
}

fn merge<T: Versioned>(first: Vec<T>, second: Vec<T>) -> (merged: Vec<T>)
    requires
        is_sorted(first@),
        is_sorted(second@),
    ensures
        is_sorted(merged@),
        forall|version: u64| #[trigger]
            with_version(merged@, version) == with_version(first@, version) + with_version(
                second@,
                version,
            ),
{
    let mut a = first;
    let mut b = second;
    let mut backwards: Vec<T> = Vec::new();
    let ghost mut merged = Seq::<T>::empty();
    proof {
        assert forall|version: u64| #[trigger]
            with_version(first@, version) + with_version(second@, version) == with_version(
                a@,
                version,
            ) + with_version(b@, version) + with_version(merged, version) by {
            lemma_with_version_none(merged, version);
            assert(with_version(first@, version) + with_version(second@, version) =~= with_version(
                a@,
                version,
            ) + with_version(b@, version) + with_version(merged, version));
        }
    }
    while a.len() > 0 || b.len() > 0
        invariant
            is_sorted(a@),
            is_sorted(b@),
            is_sorted(merged),
            is_below(a@, merged),
            is_below(b@, merged),
            merged == backwards@.reverse(),
            forall|version: u64| #[trigger]
                with_version(first@, version) + with_version(second@, version) == with_version(
                    a@,
                    version,
                ) + with_version(b@, version) + with_version(merged, version),
        decreases a.len() + b.len(),
    {
        let from_a = a.len() > 0 && (b.len() == 0 || b[b.len() - 1].version() < a[a.len()
            - 1].version());
        proof {
            assert forall|version: u64| #[trigger]
                with_version(first@, version) + with_version(second@, version) == if from_a {
                    with_version(a@.drop_last(), version) + with_version(b@, version)
                        + with_version(seq![a@.last()] + merged, version)
                } else {
                    with_version(a@, version) + with_version(b@.drop_last(), version)
                        + with_version(seq![b@.last()] + merged, version)
                } by {
                lemma_merge_step(a@, b@, merged, from_a, version);
            }
        }
        let taken = if from_a {
            a.pop()
        } else {
            b.pop()
        };
        if let Some(report) = taken {
            proof {
                merged = seq![report] + merged;
            }
            backwards.push(report);
            assert(merged =~= backwards@.reverse());
        }
    }
    proof {
        assert forall|version: u64| #[trigger]
            with_version(merged, version) == with_version(first@, version) + with_version(
                second@,
                version,
            ) by {
            lemma_with_version_none(a@, version);
            lemma_with_version_none(b@, version);
            assert(with_version(first@, version) + with_version(second@, version) =~= with_version(
                merged,
                version,
            ));
        }
    }
    reversed(backwards)
}

/// Sorts reports by version.
pub fn sort_by_version<T: Versioned>(reports: Vec<T>) -> (sorted: Vec<T>)
    ensures
        is_stable_sort(reports@, sorted@),
    decreases reports.len(),
{
    if reports.len() <= 1 {
        return reports;
    }
    let ghost all = reports@;
    let mut first = reports;
    let second = first.split_off(first.len() / 2);
    proof {
        assert(all =~= first@ + second@);
        assert forall|version: u64| #[trigger]
            with_version(all, version) == with_version(first@, version) + with_version(
                second@,
                version,
            ) by {
            lemma_with_version_add(first@, second@, version);
        }
    }
    let first = sort_by_version(first);
    let second = sort_by_version(second);
    merge(first, second)
}

proof fn lemma_with_version_last<T: Versioned>(reports: Seq<T>, version: u64)
    requires
        reports.len() > 0,
    ensures
        with_version(reports, version) == if reports.last().spec_version() == version {
            with_version(reports.drop_last(), version).push(reports.last())
        } else {
            with_version(reports.drop_last(), version)
        },
{
    reveal(Seq::filter);
}

proof fn lemma_with_version_is_of<T: Versioned>(reports: Seq<T>, version: u64, k: int)
    requires
        0 <= k < with_version(reports, version).len(),
    ensures
        with_version(reports, version)[k].spec_version() == version,
    decreases reports.len(),
{
    if reports.len() == 0 {
        lemma_with_version_none(reports, version);
    } else {
        lemma_with_version_last(reports, version);
        if k < with_version(reports.drop_last(), version).len() {
            lemma_with_version_is_of(reports.drop_last(), version, k);
        }
    }
}

/// Two sequences of reports that are in the order of their versions, and that have the same
/// reports of each version in the same order, are the same.
proof fn lemma_sorted_unique<T: Versioned>(a: Seq<T>, b: Seq<T>)
    requires
        is_sorted(a),
        is_sorted(b),
        forall|version: u64| #[trigger] with_version(a, version) == with_version(b, version),
    ensures
        a == b,
    decreases a.len(),
{
    if a.len() == 0 {
        if b.len() > 0 {
            let version = b.last().spec_version();
            lemma_with_version_last(b, version);
            lemma_with_version_none(a, version);
            assert(with_version(a, version) == with_version(b, version));
        }
        assert(a =~= b);
    } else if b.len() == 0 {
        let version = a.last().spec_version();
        lemma_with_version_last(a, version);
        lemma_with_version_none(b, version);
        assert(with_version(a, version) == with_version(b, version));
    } else {
        let va = a.last().spec_version();
        let vb = b.last().spec_version();
        lemma_with_version_last(a, va);
        lemma_with_version_last(b, vb);
        assert(with_version(a, va) == with_version(b, va));
        assert(with_version(a, vb) == with_version(b, vb));
        if va < vb {
            lemma_with_version_none(a, vb);
        } else if vb < va {
            lemma_with_version_none(b, va);
        }
        assert(with_version(a, va).last() == a.last());
        assert(with_version(b, va).last() == b.last());
        assert forall|version: u64| #[trigger]
            with_version(a.drop_last(), version) == with_version(b.drop_last(), version) by {
            lemma_with_version_last(a, version);
            lemma_with_version_last(b, version);
            assert(with_version(a, version) == with_version(b, version));
            if va == version {
                assert(with_version(a.drop_last(), version) =~= with_version(
                    a,
                    version,
                ).drop_last());
                assert(with_version(b.drop_last(), version) =~= with_version(
                    b,
                    version,
                ).drop_last());
            }
        }
        lemma_sorted_unique(a.drop_last(), b.drop_last());
        assert(a =~= a.drop_last().push(a.last()));
        assert(b =~= b.drop_last().push(b.last()));
    }
}

/// There is one way to sort reports: whatever is a stable sort of them is the same sequence.
pub proof fn law_stable_sort_is_unique<T: Versioned>(reports: Seq<T>, one: Seq<T>, other: Seq<T>)
    requires
        is_stable_sort(reports, one),
        is_stable_sort(reports, other),
    ensures
        one == other,
{
    assert forall|version: u64| #[trigger]
        with_version(one, version) == with_version(other, version) by {
        assert(with_version(one, version) == with_version(reports, version));
        assert(with_version(other, version) == with_version(reports, version));
    }
    lemma_sorted_unique(one, other);
}

proof fn lemma_count_with_version<T: Versioned>(reports: Seq<T>, report: T)
    ensures
        reports.to_multiset().count(report) == with_version(
            reports,
            report.spec_version(),
        ).to_multiset().count(report),
    decreases reports.len(),
{
    broadcast use vstd::seq_lib::group_to_multiset_ensures;

    let version = report.spec_version();
    if reports.len() == 0 {
        lemma_with_version_none(reports, version);
    } else {
        lemma_with_version_last(reports, version);
        lemma_count_with_version(reports.drop_last(), report);
        assert(reports =~= reports.drop_last().push(reports.last()));
    }
}

/// Sorting neither loses, adds nor changes a report.
pub proof fn law_sort_keeps_reports<T: Versioned>(reports: Seq<T>, sorted: Seq<T>)
    requires
        is_stable_sort(reports, sorted),
    ensures
        sorted.to_multiset() == reports.to_multiset(),
        sorted.len() == reports.len(),
{
    broadcast use vstd::seq_lib::group_to_multiset_ensures;

    assert forall|report: T|
        sorted.to_multiset().count(report) == #[trigger] reports.to_multiset().count(report) by {
        lemma_count_with_version(sorted, report);
        lemma_count_with_version(reports, report);
        assert(with_version(sorted, report.spec_version()) == with_version(
            reports,
            report.spec_version(),
        ));
    }
    assert(sorted.to_multiset() =~= reports.to_multiset());
    assert(sorted.to_multiset().len() == sorted.len());
    assert(reports.to_multiset().len() == reports.len());
}

/// No two reports are of one version.
pub open spec fn has_distinct_versions<T: Versioned>(reports: Seq<T>) -> bool {
    forall|i: int, j: int|
        0 <= i < j < reports.len() ==> reports[i].spec_version() != reports[j].spec_version()
}

proof fn lemma_with_version_distinct<T: Versioned>(reports: Seq<T>, i: int)
    requires
        has_distinct_versions(reports),
        0 <= i < reports.len(),
    ensures
        with_version(reports, reports[i].spec_version()) == seq![reports[i]],
    decreases reports.len(),
{
    let version = reports[i].spec_version();
    lemma_with_version_last(reports, version);
    if i == reports.len() - 1 {
        lemma_with_version_none(reports.drop_last(), version);
        assert(with_version(reports, version) =~= seq![reports[i]]);
    } else {
        lemma_with_version_distinct(reports.drop_last(), i);
    }
}

/// Where no two reports are of one version, the order in which they come makes no difference to
/// how they are sorted.
pub proof fn law_sort_forgets_order<T: Versioned>(
    reports: Seq<T>,
    others: Seq<T>,
    sorted: Seq<T>,
    others_sorted: Seq<T>,
)
    requires
        reports.to_multiset() == others.to_multiset(),
        has_distinct_versions(reports),
        is_stable_sort(reports, sorted),
        is_stable_sort(others, others_sorted),
    ensures
        sorted == others_sorted,
{
    broadcast use vstd::seq_lib::group_to_multiset_ensures;

    law_sort_keeps_reports(reports, sorted);
    law_sort_keeps_reports(others, others_sorted);
    assert forall|version: u64| #[trigger]
        with_version(reports, version) == with_version(others, version) by {
        if exists|i: int| 0 <= i < reports.len() && reports[i].spec_version() == version {
            let i = choose|i: int| 0 <= i < reports.len() && reports[i].spec_version() == version;
            lemma_with_version_distinct(reports, i);
            lemma_same_with_version(reports, others, i);
        } else {
            lemma_with_version_none(reports, version);
            assert forall|j: int| 0 <= j < others.len() implies #[trigger] others[j].spec_version()
                != version by {
                assert(others.contains(others[j]));
                assert(others.to_multiset().count(others[j]) > 0);
                assert(reports.contains(others[j]));
            }
            lemma_with_version_none(others, version);
        }
    }
    assert forall|version: u64| #[trigger]
        with_version(sorted, version) == with_version(others_sorted, version) by {
        assert(with_version(sorted, version) == with_version(reports, version));
        assert(with_version(others_sorted, version) == with_version(others, version));
        assert(with_version(reports, version) == with_version(others, version));
    }
    lemma_sorted_unique(sorted, others_sorted);
}

proof fn lemma_same_with_version<T: Versioned>(reports: Seq<T>, others: Seq<T>, i: int)
    requires
        reports.to_multiset() == others.to_multiset(),
        has_distinct_versions(reports),
        0 <= i < reports.len(),
    ensures
        with_version(others, reports[i].spec_version()) == seq![reports[i]],
{
    broadcast use vstd::seq_lib::group_to_multiset_ensures;

    let version = reports[i].spec_version();
    let mine = with_version(others, version);
    lemma_with_version_distinct(reports, i);
    lemma_count_with_version(others, reports[i]);
    lemma_count_with_version(reports, reports[i]);
    assert(seq![reports[i]] =~= Seq::<T>::empty().push(reports[i]));
    assert(mine.to_multiset().count(reports[i]) == 1);
    assert forall|k: int| 0 <= k < mine.len() implies #[trigger] mine[k] == reports[i] by {
        lemma_with_version_is_of(others, version, k);
        lemma_count_with_version(others, mine[k]);
        lemma_count_with_version(reports, mine[k]);
        assert(mine.contains(mine[k]));
        assert(mine.to_multiset().count(mine[k]) > 0);
        assert(with_version(reports, version).to_multiset().count(mine[k]) > 0);
        assert(with_version(reports, version).contains(mine[k]));
    }
    assert(mine.len() == 1) by {
        if mine.len() == 0 {
            assert(mine =~= Seq::<T>::empty());
        } else if mine.len() >= 2 {
            let front = mine.drop_last();
            assert(mine =~= front.push(mine.last()));
            assert(front.contains(front[0]));
            assert(mine[0] == reports[i] && mine[mine.len() - 1] == reports[i]);
            assert(front.to_multiset().count(reports[i]) > 0);
        }
    }
    assert(mine =~= seq![reports[i]]);
}

/// What sorting does: the versions do not go down, the reports of any one version are those that
/// there were and in the order that they had, and nothing is lost, added or changed.
pub proof fn law_sort_orders_by_version<T: Versioned>(reports: Seq<T>, sorted: Seq<T>, version: u64)
    requires
        is_stable_sort(reports, sorted),
    ensures
        forall|i: int, j: int|
            0 <= i < j < sorted.len() ==> (#[trigger] sorted[i]).spec_version() <= (
            #[trigger] sorted[j]).spec_version(),
        sorted.filter(|report: T| report.spec_version() == version) == reports.filter(
            |report: T| report.spec_version() == version,
        ),
        sorted.to_multiset() == reports.to_multiset(),
{
    law_sort_keeps_reports(reports, sorted);
    lemma_with_version_is_filter(sorted, version, |report: T| report.spec_version() == version);
    lemma_with_version_is_filter(reports, version, |report: T| report.spec_version() == version);
    assert(with_version(sorted, version) == with_version(reports, version));
}

proof fn lemma_with_version_is_filter<T: Versioned>(
    reports: Seq<T>,
    version: u64,
    pick: spec_fn(T) -> bool,
)
    requires
        forall|report: T| #[trigger] pick(report) == (report.spec_version() == version),
    ensures
        with_version(reports, version) == reports.filter(pick),
    decreases reports.len(),
{
    reveal(Seq::filter);
    if reports.len() > 0 {
        lemma_with_version_is_filter(reports.drop_last(), version, pick);
    }
}

} // verus!
