//! Rows kept in the order of their ids, and the removal of rows by a test.

use vstd::prelude::*;

verus! {

/// Whether the keys of the rows rise strictly from row to row and stay below
/// `limit`.
pub open spec fn ascending<T>(rows: Seq<T>, key: spec_fn(T) -> i64, limit: int) -> bool {
    &&& forall|i: int, j: int| 0 <= i < j < rows.len() ==> key(rows[i]) < key(rows[j])
    &&& forall|i: int| 0 <= i < rows.len() ==> key(rows[i]) < limit
}

/// Every row that a filter keeps was a row before.
pub proof fn lemma_filter_member<T>(rows: Seq<T>, keep: spec_fn(T) -> bool, i: int)
    requires
        0 <= i < rows.filter(keep).len(),
    ensures
        rows.contains(rows.filter(keep)[i]),
        keep(rows.filter(keep)[i]),
    decreases rows.len(),
{
    reveal(Seq::filter);
    if rows.len() > 0 {
        let front = rows.drop_last();
        if i < front.filter(keep).len() {
            lemma_filter_member(front, keep, i);
            let x = front.filter(keep)[i];
            let k = choose|k: int| 0 <= k < front.len() && front[k] == x;
            assert(rows[k] == x);
        } else {
            assert(rows[rows.len() - 1] == rows.filter(keep)[i]);
        }
    }
}

/// Rows in ascending order stay so when some are filtered out.
#[verifier::rlimit(60)]
pub proof fn lemma_filter_ascending<T>(
    rows: Seq<T>,
    keep: spec_fn(T) -> bool,
    key: spec_fn(T) -> i64,
    limit: int,
)
    requires
        ascending(rows, key, limit),
    ensures
        ascending(rows.filter(keep), key, limit),
    decreases rows.len(),
{
    reveal(Seq::filter);
    if rows.len() > 0 {
        let front = rows.drop_last();
        let last = rows.last();
        assert(ascending(front, key, limit)) by {
            assert forall|i: int, j: int| 0 <= i < j < front.len() implies key(front[i]) < key(
                front[j],
            ) by {
                assert(front[i] == rows[i] && front[j] == rows[j]);
            }
            assert forall|i: int| 0 <= i < front.len() implies key(front[i]) < limit by {
                assert(front[i] == rows[i]);
            }
        }
        lemma_filter_ascending(front, keep, key, limit);
        let kept = front.filter(keep);
        assert forall|i: int| 0 <= i < kept.len() implies key(#[trigger] kept[i]) < key(last) by {
            lemma_filter_member(front, keep, i);
            let k = choose|k: int| 0 <= k < front.len() && front[k] == kept[i];
            assert(rows[k] == kept[i]);
        }
        assert(key(last) < limit);
    }
}

/// Rows in ascending order stay so when one is replaced by a row with the
/// same key.
pub proof fn lemma_update_ascending<T>(
    rows: Seq<T>,
    at: int,
    row: T,
    key: spec_fn(T) -> i64,
    limit: int,
)
    requires
        ascending(rows, key, limit),
        0 <= at < rows.len(),
        key(row) == key(rows[at]),
    ensures
        ascending(rows.update(at, row), key, limit),
{
    let next = rows.update(at, row);
    assert forall|i: int, j: int| 0 <= i < j < next.len() implies key(next[i]) < key(next[j]) by {
        assert(key(rows[i]) < key(rows[j]));
    }
    assert forall|i: int| 0 <= i < next.len() implies key(next[i]) < limit by {
        assert(key(rows[i]) < limit);
    }
}

/// Rows in ascending order stay so when a row with the limit as its key is
/// appended, below the next limit.
pub proof fn lemma_push_ascending<T>(rows: Seq<T>, row: T, key: spec_fn(T) -> i64, limit: int)
    requires
        ascending(rows, key, limit),
        key(row) == limit,
    ensures
        ascending(rows.push(row), key, limit + 1),
{
    let next = rows.push(row);
    assert forall|i: int, j: int| 0 <= i < j < next.len() implies key(next[i]) < key(next[j]) by {
        if j < rows.len() {
            assert(key(rows[i]) < key(rows[j]));
        } else {
            assert(key(rows[i]) < limit);
        }
    }
    assert forall|i: int| 0 <= i < next.len() implies key(next[i]) < limit + 1 by {
        if i < rows.len() {
            assert(key(rows[i]) < limit);
        }
    }
}

/// In rows in ascending order no key occurs twice.
pub proof fn lemma_ascending_unique<T>(
    rows: Seq<T>,
    key: spec_fn(T) -> i64,
    limit: int,
    i: int,
    j: int,
)
    requires
        ascending(rows, key, limit),
        0 <= i < rows.len(),
        0 <= j < rows.len(),
        key(rows[i]) == key(rows[j]),
    ensures
        i == j,
{
    if i < j {
        assert(key(rows[i]) < key(rows[j]));
    } else if j < i {
        assert(key(rows[j]) < key(rows[i]));
    }
}

/// Removes from `rows` those whose flag is not set.
#[verifier::rlimit(60)]
pub(crate) fn retain_flagged<T>(rows: &mut Vec<T>, flags: &Vec<bool>, Ghost(keep): Ghost<spec_fn(T) -> bool>)
    requires
        flags.len() == old(rows).len(),
        forall|i: int| 0 <= i < flags.len() ==> flags[i] == keep(#[trigger] old(rows)@[i]),
    ensures
        final(rows)@ == old(rows)@.filter(keep),
{
    let ghost all = rows@;
    let total = rows.len();
    let mut done: usize = 0;
    let mut at: usize = 0;
    proof {
        reveal(Seq::filter);
        assert(all.take(0) =~= Seq::<T>::empty());
        assert(all.skip(0) =~= all);
        assert(Seq::<T>::empty() + all =~= all);
    }
    while done < total
        invariant
            total == all.len(),
            flags.len() == total,
            done <= total,
            at <= done,
            at == all.take(done as int).filter(keep).len(),
            rows@ == all.take(done as int).filter(keep) + all.skip(done as int),
            forall|i: int| 0 <= i < flags.len() ==> flags[i] == keep(#[trigger] all[i]),
        decreases total - done,
    {
        let ghost head = all.take(done as int).filter(keep);
        proof {
            assert(all.take(done as int + 1) =~= all.take(done as int).push(all[done as int]));
            all.take(done as int).lemma_filter_push(all[done as int], keep);
            assert(rows@[at as int] == all[done as int]);
        }
        if flags[done] {
            assert(rows@ =~= head.push(all[done as int]) + all.skip(done as int + 1));
            at += 1;
        } else {
            rows.remove(at);
            assert(rows@ =~= head + all.skip(done as int + 1));
        }
        done += 1;
    }
    proof {
        assert(all.take(total as int) =~= all);
        assert(all.skip(total as int) =~= Seq::<T>::empty());
        assert(all.filter(keep) + Seq::<T>::empty() =~= all.filter(keep));
    }
}

} // verus!
