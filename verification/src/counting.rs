//! Counting the entries of a sequence that pass a test.

use vstd::prelude::*;

verus! {

/// How many entries of `s` pass the test `t`.
pub open spec fn count(s: Seq<i64>, t: spec_fn(i64) -> bool) -> nat
    decreases s.len(),
{
    if s.len() == 0 {
        0
    } else {
        count(s.drop_last(), t) + if t(s.last()) {
            1nat
        } else {
            0nat
        }
    }
}

/// The test that passes what passes both `p` and `q`.
pub open spec fn both(p: spec_fn(i64) -> bool, q: spec_fn(i64) -> bool) -> spec_fn(i64) -> bool {
    |x: i64| p(x) && q(x)
}

/// The test that passes what passes `p` and fails `q`.
pub open spec fn but_not(p: spec_fn(i64) -> bool, q: spec_fn(i64) -> bool) -> spec_fn(i64) -> bool {
    |x: i64| p(x) && !q(x)
}

/// A filter keeps as many entries as pass its test.
pub proof fn lemma_count_is_filter_len(s: Seq<i64>, t: spec_fn(i64) -> bool)
    ensures
        count(s, t) == s.filter(t).len(),
    decreases s.len(),
{
    reveal(Seq::filter);
    if s.len() > 0 {
        lemma_count_is_filter_len(s.drop_last(), t);
    }
}

/// No more entries pass a test than there are.
pub proof fn lemma_count_bound(s: Seq<i64>, t: spec_fn(i64) -> bool)
    ensures
        count(s, t) <= s.len(),
    decreases s.len(),
{
    if s.len() > 0 {
        lemma_count_bound(s.drop_last(), t);
    }
}

/// A test that passes less counts less.
pub proof fn lemma_count_mono(s: Seq<i64>, p: spec_fn(i64) -> bool, q: spec_fn(i64) -> bool)
    requires
        forall|x: i64| s.contains(x) && p(x) ==> q(x),
    ensures
        count(s, p) <= count(s, q),
    decreases s.len(),
{
    if s.len() > 0 {
        assert forall|x: i64| s.drop_last().contains(x) && p(x) implies q(x) by {
            let k = choose|k: int| 0 <= k < s.drop_last().len() && s.drop_last()[k] == x;
            assert(s[k] == x);
            assert(s.contains(x));
        }
        lemma_count_mono(s.drop_last(), p, q);
        assert(s[s.len() - 1] == s.last());
        assert(s.contains(s.last()));
    }
}

/// Tests that agree on the entries count the same.
pub proof fn lemma_count_same(s: Seq<i64>, p: spec_fn(i64) -> bool, q: spec_fn(i64) -> bool)
    requires
        forall|x: i64| s.contains(x) ==> p(x) == q(x),
    ensures
        count(s, p) == count(s, q),
{
    lemma_count_mono(s, p, q);
    lemma_count_mono(s, q, p);
}

/// Those that pass `p` are those that pass `p` and `q`, and those that pass
/// `p` and fail `q`.
pub proof fn lemma_count_split(s: Seq<i64>, p: spec_fn(i64) -> bool, q: spec_fn(i64) -> bool)
    ensures
        count(s, p) == count(s, both(p, q)) + count(s, but_not(p, q)),
    decreases s.len(),
{
    if s.len() > 0 {
        lemma_count_split(s.drop_last(), p, q);
    }
}

/// Counting by `q` among what a filter by `p` keeps is counting by both.
pub proof fn lemma_count_filtered(s: Seq<i64>, p: spec_fn(i64) -> bool, q: spec_fn(i64) -> bool)
    ensures
        count(s.filter(p), q) == count(s, both(p, q)),
    decreases s.len(),
{
    reveal(Seq::filter);
    if s.len() > 0 {
        lemma_count_filtered(s.drop_last(), p, q);
        if p(s.last()) {
            assert(s.filter(p).drop_last() =~= s.drop_last().filter(p));
        }
    }
}

/// Taking one entry out lowers the count by one if the entry passes, and
/// leaves it as it is if not.
pub proof fn lemma_count_remove(s: Seq<i64>, i: int, t: spec_fn(i64) -> bool)
    requires
        0 <= i < s.len(),
    ensures
        count(s, t) == count(s.remove(i), t) + if t(s[i]) {
            1nat
        } else {
            0nat
        },
    decreases s.len(),
{
    if i == s.len() - 1 {
        assert(s.remove(i) =~= s.drop_last());
    } else {
        lemma_count_remove(s.drop_last(), i, t);
        assert(s.remove(i).drop_last() =~= s.drop_last().remove(i));
        assert(s.remove(i).last() == s.last());
    }
}

/// Among entries without duplicates at most one is `g`.
pub proof fn lemma_count_single(s: Seq<i64>, g: i64)
    requires
        s.no_duplicates(),
    ensures
        count(s, |x: i64| x == g) <= 1,
        !s.contains(g) ==> count(s, |x: i64| x == g) == 0,
    decreases s.len(),
{
    let t = |x: i64| x == g;
    if s.len() > 0 {
        let front = s.drop_last();
        assert(front.no_duplicates()) by {
            assert forall|a: int, b: int| 0 <= a < front.len() && 0 <= b < front.len() && a
                != b implies front[a] != front[b] by {
                assert(s[a] != s[b]);
            }
        }
        lemma_count_single(front, g);
        if s.last() == g {
            assert(!front.contains(g)) by {
                if front.contains(g) {
                    let k = choose|k: int| 0 <= k < front.len() && front[k] == g;
                    assert(s[k] == s[s.len() - 1]);
                }
            }
        } else if !s.contains(g) {
            assert(!front.contains(g)) by {
                if front.contains(g) {
                    let k = choose|k: int| 0 <= k < front.len() && front[k] == g;
                    assert(s[k] == g);
                }
            }
        }
    }
}

/// A filter of entries without duplicates has no duplicates.
pub proof fn lemma_filter_no_duplicates(s: Seq<i64>, t: spec_fn(i64) -> bool)
    requires
        s.no_duplicates(),
    ensures
        s.filter(t).no_duplicates(),
    decreases s.len(),
{
    reveal(Seq::filter);
    if s.len() > 0 {
        let front = s.drop_last();
        assert(front.no_duplicates()) by {
            assert forall|a: int, b: int| 0 <= a < front.len() && 0 <= b < front.len() && a
                != b implies front[a] != front[b] by {
                assert(s[a] != s[b]);
            }
        }
        lemma_filter_no_duplicates(front, t);
        let kept = front.filter(t);
        if t(s.last()) {
            assert(!kept.contains(s.last())) by {
                if kept.contains(s.last()) {
                    let i = choose|i: int| 0 <= i < kept.len() && kept[i] == s.last();
                    crate::table::lemma_filter_member(front, t, i);
                    let k = choose|k: int| 0 <= k < front.len() && front[k] == s.last();
                    assert(s[k] == s[s.len() - 1]);
                }
            }
            let out = kept.push(s.last());
            assert forall|a: int, b: int| 0 <= a < out.len() && 0 <= b < out.len() && a
                != b implies out[a] != out[b] by {
                if a < kept.len() && b < kept.len() {
                    assert(kept[a] != kept[b]);
                } else if a < kept.len() {
                    assert(kept.contains(kept[a]));
                } else {
                    assert(kept.contains(kept[b]));
                }
            }
        }
    }
}

/// Entries without duplicates, followed by one that is not among them, have
/// no duplicates.
pub proof fn lemma_push_no_duplicates(s: Seq<i64>, x: i64)
    requires
        s.no_duplicates(),
        !s.contains(x),
    ensures
        s.push(x).no_duplicates(),
{
    let out = s.push(x);
    assert forall|a: int, b: int| 0 <= a < out.len() && 0 <= b < out.len() && a != b implies out[a]
        != out[b] by {
        if a < s.len() && b < s.len() {
            assert(s[a] != s[b]);
        } else if a < s.len() {
            assert(s.contains(s[a]));
        } else {
            assert(s.contains(s[b]));
        }
    }
}

} // verus!
