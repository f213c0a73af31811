//! The fairness window: how often each publisher, and each pair of
//! publishers, was assigned in the shifts that the window holds. The counts
//! are kept in two maps, one by publisher and one by pair.

use std::collections::HashMap;
use vstd::prelude::*;

verus! {

/// Counts are kept in 32 bits and stop at this value.
pub const COUNT_LIMIT: u32 = 0xFFFF_FFFF;

/// The number of shifts in `history` that `p` appears in.
pub open spec fn times_seen(history: Seq<Seq<i64>>, p: i64) -> nat
    decreases history.len(),
{
    if history.len() == 0 {
        0
    } else {
        times_seen(history.drop_last(), p) + if history.last().contains(p) {
            1nat
        } else {
            0nat
        }
    }
}

/// The number of shifts in `history` that two different publishers `a` and
/// `b` both appear in; 0 for `a == b`.
pub open spec fn times_together(history: Seq<Seq<i64>>, a: i64, b: i64) -> nat
    decreases history.len(),
{
    if history.len() == 0 {
        0
    } else {
        times_together(history.drop_last(), a, b) + if a != b && history.last().contains(a)
            && history.last().contains(b) {
            1nat
        } else {
            0nat
        }
    }
}

/// A count as the window reports it: exact up to `COUNT_LIMIT`.
pub open spec fn limited(n: nat) -> nat {
    if n > COUNT_LIMIT {
        COUNT_LIMIT as nat
    } else {
        n
    }
}

/// The recent assignment count of `p`.
pub open spec fn recent_count(history: Seq<Seq<i64>>, p: i64) -> nat {
    limited(times_seen(history, p))
}

/// The co-assignment count of the unordered pair `{a, b}`.
pub open spec fn pair_count(history: Seq<Seq<i64>>, a: i64, b: i64) -> nat {
    limited(times_together(history, a, b))
}

/// The sum, over the entries `o` of `basis`, of the co-assignment counts of
/// `p` with `o`.
pub open spec fn pair_total(history: Seq<Seq<i64>>, p: i64, basis: Seq<i64>) -> nat
    decreases basis.len(),
{
    if basis.len() == 0 {
        0
    } else {
        pair_total(history, p, basis.drop_last()) + pair_count(history, p, basis.last())
    }
}

/// A copy of a list of ids.
pub fn copy_ids(v: &Vec<i64>) -> (r: Vec<i64>)
    ensures
        r@ == v@,
{
    let mut r: Vec<i64> = Vec::new();
    let mut i: usize = 0;
    while i < v.len()
        invariant
            i <= v.len(),
            r@ == v@.take(i as int),
        decreases v.len() - i,
    {
        r.push(v[i]);
        assert(v@.take(i as int).push(v@[i as int]) =~= v@.take(i as int + 1));
        i += 1;
    }
    assert(v@.take(v.len() as int) =~= v@);
    r
}

/// Whether `x` occurs in `v`.
pub fn has_id(v: &Vec<i64>, x: i64) -> (r: bool)
    ensures
        r == v@.contains(x),
{
    let mut i: usize = 0;
    while i < v.len()
        invariant
            i <= v.len(),
            forall|k: int| 0 <= k < i ==> v@[k] != x,
        decreases v.len() - i,
    {
        if v[i] == x {
            return true;
        }
        i += 1;
    }
    false
}

/// The key of the pair `(a, b)` in the map of pairs.
pub open spec fn pair_key(a: i64, b: i64) -> i128 {
    (a * 0x1_0000_0000_0000_0000 + (b + 0x8000_0000_0000_0000)) as i128
}

/// The count that a map holds for a key: 0 where it holds none.
pub open spec fn held<K>(m: Map<K, u32>, k: K) -> nat {
    if m.contains_key(k) {
        m[k] as nat
    } else {
        0
    }
}

/// A count after one more shift, if the shift counts.
pub open spec fn raised(n: nat, counts: bool) -> nat {
    if counts {
        limited(n + 1)
    } else {
        limited(n)
    }
}

/// Whether two of the first entries of `d` are `a` and `b`: the entries at
/// two positions `u < v`, where `u` is before `i`, or is `i` with `v`
/// before `j`.
pub open spec fn joined(d: Seq<i64>, i: int, j: int, a: i64, b: i64) -> bool {
    exists|u: int, v: int|
        0 <= u < v < d.len() && (u < i || (u == i && v < j)) && ((d[u] == a && d[v] == b) || (d[u]
            == b && d[v] == a))
}

/// Different pairs have different keys.
pub proof fn lemma_pair_keys_differ(a: i64, b: i64, c: i64, d: i64)
    ensures
        pair_key(a, b) == pair_key(c, d) ==> a == c && b == d,
{
}

/// The number of shifts that two publishers share does not depend on who
/// is named first.
pub proof fn lemma_together_both_ways(history: Seq<Seq<i64>>, a: i64, b: i64)
    ensures
        times_together(history, a, b) == times_together(history, b, a),
    decreases history.len(),
{
    if history.len() > 0 {
        lemma_together_both_ways(history.drop_last(), a, b);
    }
}

/// The entries of `v`, each once, in the order of their first occurrence.
#[verifier::rlimit(60)]
pub fn distinct_ids(v: &Vec<i64>) -> (d: Vec<i64>)
    ensures
        d@.no_duplicates(),
        forall|x: i64| d@.contains(x) <==> v@.contains(x),
{
    let mut d: Vec<i64> = Vec::new();
    let mut i: usize = 0;
    while i < v.len()
        invariant
            i <= v.len(),
            d@.no_duplicates(),
            forall|x: i64| d@.contains(x) <==> v@.take(i as int).contains(x),
        decreases v.len() - i,
    {
        let x = v[i];
        let ghost before = d@;
        let fresh = !has_id(&d, x);
        if fresh {
            d.push(x);
        }
        proof {
            let now = v@.take(i as int + 1);
            assert(now =~= v@.take(i as int).push(x));
            assert forall|y: i64| d@.contains(y) <==> now.contains(y) by {
                if d@.contains(y) {
                    let k = choose|k: int| 0 <= k < d@.len() && d@[k] == y;
                    if k < before.len() {
                        assert(before[k] == y);
                        assert(before.contains(y));
                        let m = choose|m: int|
                            0 <= m < v@.take(i as int).len() && v@.take(i as int)[m] == y;
                        assert(now[m] == y);
                    } else {
                        assert(now[i as int] == y);
                    }
                }
                if now.contains(y) {
                    let m = choose|m: int| 0 <= m < now.len() && now[m] == y;
                    if m < i {
                        assert(v@.take(i as int)[m] == y);
                        assert(before.contains(y));
                        let k = choose|k: int| 0 <= k < before.len() && before[k] == y;
                        assert(d@[k] == y);
                    } else if fresh {
                        assert(d@[before.len() as int] == y);
                    } else {
                        let k = choose|k: int| 0 <= k < before.len() && before[k] == y;
                        assert(d@[k] == y);
                    }
                }
            }
            if fresh {
                assert forall|a: int, b: int|
                    0 <= a < d@.len() && 0 <= b < d@.len() && a != b implies d@[a] != d@[b] by {
                    if a < before.len() && b < before.len() {
                        assert(before[a] != before[b]);
                    } else if a < before.len() {
                        assert(before.contains(before[a]));
                    } else {
                        assert(before.contains(before[b]));
                    }
                }
            }
        }
        i += 1;
    }
    assert(v@.take(v.len() as int) =~= v@);
    d
}

/// Raises the count of the publisher `k` by one, up to the limit.
fn raise_one(m: &mut HashMap<i64, u32>, k: i64)
    ensures
        final(m)@.contains_key(k),
        held(final(m)@, k) == raised(held(old(m)@, k), true),
        forall|q: i64| q != k ==> held(final(m)@, q) == held(old(m)@, q),
{
    broadcast use vstd::std_specs::hash::group_hash_axioms;

    let now: u32 = match m.get(&k) {
        Some(c) => *c,
        None => 0,
    };
    let next: u32 = if now < COUNT_LIMIT {
        now + 1
    } else {
        now
    };
    m.insert(k, next);
}

/// Raises the count of the pair with the key `k` by one, up to the limit.
fn raise_pair(m: &mut HashMap<i128, u32>, k: i128)
    ensures
        final(m)@.contains_key(k),
        held(final(m)@, k) == raised(held(old(m)@, k), true),
        forall|q: i128| q != k ==> held(final(m)@, q) == held(old(m)@, q),
{
    broadcast use vstd::std_specs::hash::group_hash_axioms;

    let now: u32 = match m.get(&k) {
        Some(c) => *c,
        None => 0,
    };
    let next: u32 = if now < COUNT_LIMIT {
        now + 1
    } else {
        now
    };
    m.insert(k, next);
}

/// The fairness window: the recent assignment count of each publisher and
/// the co-assignment count of each pair, over the shifts taken in.
pub struct Fairness {
    recent: HashMap<i64, u32>,
    pairs: HashMap<i128, u32>,
    history: Ghost<Seq<Seq<i64>>>,
}

impl View for Fairness {
    type V = Seq<Seq<i64>>;

    /// The shifts taken in, each as the list of its publishers.
    closed spec fn view(&self) -> Seq<Seq<i64>> {
        self.history@
    }
}

impl Fairness {
    /// The two maps hold the counts over the shifts taken in.
    #[verifier::type_invariant]
    spec fn counts_hold(self) -> bool {
        &&& forall|p: i64| held(self.recent@, p) == #[trigger] recent_count(self.history@, p)
        &&& forall|a: i64, b: i64|
            a < b ==> held(self.pairs@, pair_key(a, b)) == #[trigger] pair_count(
                self.history@,
                a,
                b,
            )
    }

    /// An empty window.
    pub fn new() -> (r: Fairness)
        ensures
            r@ == Seq::<Seq<i64>>::empty(),
    {
        Fairness { recent: HashMap::new(), pairs: HashMap::new(), history: Ghost(Seq::empty()) }
    }

    /// The recent assignment count of `p`.
    pub fn recent(&self, p: i64) -> (r: u32)
        ensures
            r == recent_count(self@, p),
    {
        broadcast use vstd::std_specs::hash::group_hash_axioms;

        proof {
            use_type_invariant(self);
        }
        match self.recent.get(&p) {
            Some(c) => *c,
            None => 0,
        }
    }

    /// The co-assignment count of the unordered pair `{a, b}`.
    pub fn together(&self, a: i64, b: i64) -> (r: u32)
        ensures
            r == pair_count(self@, a, b),
    {
        broadcast use vstd::std_specs::hash::group_hash_axioms;

        proof {
            use_type_invariant(self);
            lemma_together_both_ways(self@, a, b);
            lemma_together_none(self@, a);
        }
        if a == b {
            return 0;
        }
        let key: i128 = if a < b {
            a as i128 * 0x1_0000_0000_0000_0000 + (b as i128 + 0x8000_0000_0000_0000)
        } else {
            b as i128 * 0x1_0000_0000_0000_0000 + (a as i128 + 0x8000_0000_0000_0000)
        };
        proof {
            if a < b {
                assert(key == pair_key(a, b));
                assert(held(self.pairs@, pair_key(a, b)) == pair_count(self.history@, a, b));
            } else {
                assert(key == pair_key(b, a));
                assert(held(self.pairs@, pair_key(b, a)) == pair_count(self.history@, b, a));
            }
        }
        match self.pairs.get(&key) {
            Some(c) => *c,
            None => 0,
        }
    }

    /// The sum of the co-assignment counts of `p` with each entry of `basis`.
    pub fn together_with_all(&self, p: i64, basis: &Vec<i64>) -> (r: u128)
        ensures
            r == pair_total(self@, p, basis@),
            r <= basis.len() * COUNT_LIMIT,
    {
        let mut sum: u128 = 0;
        let mut i: usize = 0;
        while i < basis.len()
            invariant
                i <= basis.len(),
                sum == pair_total(self@, p, basis@.take(i as int)),
                sum <= i * COUNT_LIMIT,
            decreases basis.len() - i,
        {
            assert(basis@.take(i as int + 1).drop_last() =~= basis@.take(i as int));
            let c = self.together(p, basis[i]);
            assert((i + 1) * COUNT_LIMIT == i * COUNT_LIMIT + COUNT_LIMIT) by (nonlinear_arith);
            assert(i * COUNT_LIMIT <= 0xFFFF_FFFF_FFFF_FFFF * 0xFFFF_FFFF) by (nonlinear_arith)
                requires
                    i <= 0xFFFF_FFFF_FFFF_FFFF,
            ;
            sum = sum + c as u128;
            i += 1;
        }
        assert(basis@.take(basis.len() as int) =~= basis@);
        sum
    }

    /// Takes one more shift, with these publishers, into the window.
    #[verifier::rlimit(60)]
    pub fn record(&mut self, publishers: &Vec<i64>)
        ensures
            final(self)@ == old(self)@.push(publishers@),
    {
        let mut taken = Fairness::new();
        std::mem::swap(self, &mut taken);
        proof {
            use_type_invariant(&taken);
        }
        let Fairness { recent, pairs, history } = taken;
        let ghost h = history@;
        let d = distinct_ids(publishers);
        let recent = count_each(recent, &d, Ghost(h));
        let pairs = count_pairs(pairs, &d, Ghost(h));
        let ghost next = h.push(publishers@);
        proof {
            assert(next.drop_last() =~= h);
            assert forall|p: i64| held(recent@, p) == #[trigger] recent_count(next, p) by {
                assert(held(recent@, p) == raised(times_seen(h, p), d@.contains(p)));
                assert(d@.contains(p) == publishers@.contains(p));
            }
            assert forall|a: i64, b: i64| a < b implies held(pairs@, pair_key(a, b))
                == #[trigger] pair_count(next, a, b) by {
                lemma_joined_all(d@, a, b);
                assert(held(pairs@, pair_key(a, b)) == raised(
                    times_together(h, a, b),
                    joined(d@, d@.len() as int, 0, a, b),
                ));
                assert(d@.contains(a) == publishers@.contains(a));
                assert(d@.contains(b) == publishers@.contains(b));
            }
        }
        *self = Fairness { recent, pairs, history: Ghost(next) };
    }
}

/// Nobody shares a shift with themselves.
pub proof fn lemma_together_none(history: Seq<Seq<i64>>, a: i64)
    ensures
        times_together(history, a, a) == 0,
    decreases history.len(),
{
    if history.len() > 0 {
        lemma_together_none(history.drop_last(), a);
    }
}

/// Two different entries of a list without duplicates are joined once all
/// its positions have had their turn, and no others are.
pub proof fn lemma_joined_all(d: Seq<i64>, a: i64, b: i64)
    requires
        d.no_duplicates(),
    ensures
        joined(d, d.len() as int, 0, a, b) == (a != b && d.contains(a) && d.contains(b)),
{
    if a != b && d.contains(a) && d.contains(b) {
        let x = choose|x: int| 0 <= x < d.len() && d[x] == a;
        let y = choose|y: int| 0 <= y < d.len() && d[y] == b;
        if x < y {
            assert(0 <= x < y < d.len() && (x < d.len() || (x == d.len() && y < 0)) && ((d[x] == a
                && d[y] == b) || (d[x] == b && d[y] == a)));
        } else {
            assert(0 <= y < x < d.len() && (y < d.len() || (y == d.len() && x < 0)) && ((d[y] == a
                && d[x] == b) || (d[y] == b && d[x] == a)));
        }
    }
    if joined(d, d.len() as int, 0, a, b) {
        let (u, v) = choose|u: int, v: int|
            0 <= u < v < d.len() && (u < d.len() || (u == d.len() && v < 0)) && ((d[u] == a && d[v]
                == b) || (d[u] == b && d[v] == a));
        assert(d[u] != d[v]);
    }
}

/// Counts one more shift for each of the publishers `d`.
#[verifier::rlimit(60)]
fn count_each(recent: HashMap<i64, u32>, d: &Vec<i64>, Ghost(h): Ghost<Seq<Seq<i64>>>) -> (out:
    HashMap<i64, u32>)
    requires
        d@.no_duplicates(),
        forall|p: i64| held(recent@, p) == #[trigger] recent_count(h, p),
    ensures
        forall|p: i64|
            held(out@, p) == #[trigger] raised(times_seen(h, p), d@.contains(p)),
{
    let mut out = recent;
    let mut i: usize = 0;
    proof {
        assert forall|p: i64|
            held(out@, p) == #[trigger] raised(times_seen(h, p), d@.take(0).contains(p)) by {
            assert(held(out@, p) == recent_count(h, p));
            assert(!d@.take(0).contains(p));
        }
    }
    while i < d.len()
        invariant
            i <= d.len(),
            d@.no_duplicates(),
            forall|p: i64|
                held(out@, p) == #[trigger] raised(times_seen(h, p), d@.take(i as int).contains(p)),
        decreases d.len() - i,
    {
        let k = d[i];
        let ghost before = out@;
        raise_one(&mut out, k);
        proof {
            let seen = d@.take(i as int);
            let now = d@.take(i as int + 1);
            assert(now =~= seen.push(k));
            assert(!seen.contains(k)) by {
                if seen.contains(k) {
                    let m = choose|m: int| 0 <= m < seen.len() && seen[m] == k;
                    assert(d@[m] == d@[i as int]);
                }
            }
            assert forall|p: i64|
                held(out@, p) == #[trigger] raised(times_seen(h, p), now.contains(p)) by {
                assert(held(before, p) == raised(times_seen(h, p), seen.contains(p)));
                if p == k {
                    assert(now[i as int] == k);
                } else {
                    if seen.contains(p) {
                        let m = choose|m: int| 0 <= m < seen.len() && seen[m] == p;
                        assert(now[m] == p);
                    }
                    if now.contains(p) {
                        let m = choose|m: int| 0 <= m < now.len() && now[m] == p;
                        assert(seen[m] == p);
                    }
                }
            }
        }
        i += 1;
    }
    assert(d@.take(d.len() as int) =~= d@);
    out
}

/// Counts one more shift for each pair of the publishers `d`.
#[verifier::rlimit(60)]
fn count_pairs(pairs: HashMap<i128, u32>, d: &Vec<i64>, Ghost(h): Ghost<Seq<Seq<i64>>>) -> (out:
    HashMap<i128, u32>)
    requires
        d@.no_duplicates(),
        forall|a: i64, b: i64|
            a < b ==> held(pairs@, pair_key(a, b)) == #[trigger] pair_count(h, a, b),
    ensures
        forall|a: i64, b: i64|
            a < b ==> held(out@, pair_key(a, b)) == raised(
                #[trigger] times_together(h, a, b),
                joined(d@, d@.len() as int, 0, a, b),
            ),
{
    let mut out = pairs;
    let mut i: usize = 0;
    proof {
        assert forall|a: i64, b: i64| a < b implies held(out@, pair_key(a, b)) == raised(
            #[trigger] times_together(h, a, b),
            joined(d@, 0, 0, a, b),
        ) by {
            assert(held(out@, pair_key(a, b)) == pair_count(h, a, b));
            assert(!joined(d@, 0, 0, a, b));
        }
    }
    while i < d.len()
        invariant
            i <= d.len(),
            d@.no_duplicates(),
            forall|a: i64, b: i64|
                a < b ==> held(out@, pair_key(a, b)) == raised(
                    #[trigger] times_together(h, a, b),
                    joined(d@, i as int, 0, a, b),
                ),
        decreases d.len() - i,
    {
        let mut j: usize = i + 1;
        proof {
            assert forall|a: i64, b: i64| joined(d@, i as int, 0, a, b) == joined(
                d@,
                i as int,
                i as int + 1,
                a,
                b,
            ) by {
                lemma_joined_row_start(d@, i as int, a, b);
            }
        }
        while j < d.len()
            invariant
                i < j <= d.len(),
                d@.no_duplicates(),
                forall|a: i64, b: i64|
                    a < b ==> held(out@, pair_key(a, b)) == raised(
                        #[trigger] times_together(h, a, b),
                        joined(d@, i as int, j as int, a, b),
                    ),
            decreases d.len() - j,
        {
            let x = d[i];
            let y = d[j];
            assert(x != y);
            let lo = if x < y {
                x
            } else {
                y
            };
            let hi = if x < y {
                y
            } else {
                x
            };
            let key: i128 = lo as i128 * 0x1_0000_0000_0000_0000 + (hi as i128
                + 0x8000_0000_0000_0000);
            let ghost before = out@;
            raise_pair(&mut out, key);
            proof {
                assert forall|a: i64, b: i64| a < b implies held(out@, pair_key(a, b)) == raised(
                    #[trigger] times_together(h, a, b),
                    joined(d@, i as int, j as int + 1, a, b),
                ) by {
                    lemma_pair_keys_differ(a, b, lo, hi);
                    lemma_joined_next(d@, i as int, j as int, a, b);
                    assert(held(before, pair_key(a, b)) == raised(
                        times_together(h, a, b),
                        joined(d@, i as int, j as int, a, b),
                    ));
                }
            }
            j += 1;
        }
        proof {
            assert forall|a: i64, b: i64| joined(d@, i as int, d@.len() as int, a, b) == joined(
                d@,
                i as int + 1,
                0,
                a,
                b,
            ) by {
                lemma_joined_row_end(d@, i as int, a, b);
            }
        }
        i += 1;
    }
    out
}

/// No second position stands before the one after the first: the turns
/// before `(i, 0)` are the turns before `(i, i + 1)`.
pub proof fn lemma_joined_row_start(d: Seq<i64>, i: int, a: i64, b: i64)
    requires
        0 <= i < d.len(),
    ensures
        joined(d, i, 0, a, b) == joined(d, i, i + 1, a, b),
{
    if joined(d, i, 0, a, b) {
        let (u, v) = choose|u: int, v: int|
            0 <= u < v < d.len() && (u < i || (u == i && v < 0)) && ((d[u] == a && d[v] == b) || (
            d[u] == b && d[v] == a));
        assert(0 <= u < v < d.len() && (u < i || (u == i && v < i + 1)) && ((d[u] == a && d[v]
            == b) || (d[u] == b && d[v] == a)));
    }
    if joined(d, i, i + 1, a, b) {
        let (u, v) = choose|u: int, v: int|
            0 <= u < v < d.len() && (u < i || (u == i && v < i + 1)) && ((d[u] == a && d[v] == b)
                || (d[u] == b && d[v] == a));
        assert(0 <= u < v < d.len() && (u < i || (u == i && v < 0)) && ((d[u] == a && d[v] == b)
            || (d[u] == b && d[v] == a)));
    }
}

/// Once the first position `i` has met every second position, the turns
/// taken are those before `(i + 1, 0)`.
pub proof fn lemma_joined_row_end(d: Seq<i64>, i: int, a: i64, b: i64)
    requires
        0 <= i < d.len(),
    ensures
        joined(d, i, d.len() as int, a, b) == joined(d, i + 1, 0, a, b),
{
    let n = d.len() as int;
    if joined(d, i, n, a, b) {
        let (u, v) = choose|u: int, v: int|
            0 <= u < v < d.len() && (u < i || (u == i && v < n)) && ((d[u] == a && d[v] == b) || (
            d[u] == b && d[v] == a));
        assert(0 <= u < v < d.len() && (u < i + 1 || (u == i + 1 && v < 0)) && ((d[u] == a && d[v]
            == b) || (d[u] == b && d[v] == a)));
    }
    if joined(d, i + 1, 0, a, b) {
        let (u, v) = choose|u: int, v: int|
            0 <= u < v < d.len() && (u < i + 1 || (u == i + 1 && v < 0)) && ((d[u] == a && d[v]
                == b) || (d[u] == b && d[v] == a));
        assert(0 <= u < v < d.len() && (u < i || (u == i && v < n)) && ((d[u] == a && d[v] == b)
            || (d[u] == b && d[v] == a)));
    }
}

/// After the turn of the positions `(i, j)` the pairs joined are those
/// joined before and the pair of the entries at `i` and `j`, which was not
/// joined before.
#[verifier::rlimit(60)]
pub proof fn lemma_joined_next(d: Seq<i64>, i: int, j: int, a: i64, b: i64)
    requires
        d.no_duplicates(),
        0 <= i < j < d.len(),
    ensures
        joined(d, i, j + 1, a, b) == (joined(d, i, j, a, b) || (d[i] == a && d[j] == b) || (d[i]
            == b && d[j] == a)),
        (d[i] == a && d[j] == b) || (d[i] == b && d[j] == a) ==> !joined(d, i, j, a, b),
{
    if joined(d, i, j + 1, a, b) {
        let (u, v) = choose|u: int, v: int|
            0 <= u < v < d.len() && (u < i || (u == i && v < j + 1)) && ((d[u] == a && d[v] == b)
                || (d[u] == b && d[v] == a));
        if !(u == i && v == j) {
            assert(0 <= u < v < d.len() && (u < i || (u == i && v < j)) && ((d[u] == a && d[v] == b)
                || (d[u] == b && d[v] == a)));
        }
    }
    if joined(d, i, j, a, b) {
        let (u, v) = choose|u: int, v: int|
            0 <= u < v < d.len() && (u < i || (u == i && v < j)) && ((d[u] == a && d[v] == b) || (
            d[u] == b && d[v] == a));
        assert(0 <= u < v < d.len() && (u < i || (u == i && v < j + 1)) && ((d[u] == a && d[v] == b)
            || (d[u] == b && d[v] == a)));
        if (d[i] == a && d[j] == b) || (d[i] == b && d[j] == a) {
            // The same two entries at other positions: impossible without duplicates.
            assert(d[u] == d[i] || d[u] == d[j]);
            assert(d[v] == d[i] || d[v] == d[j]);
        }
    }
    if (d[i] == a && d[j] == b) || (d[i] == b && d[j] == a) {
        assert(0 <= i < j < d.len() && (i < i || (i == i && j < j + 1)) && ((d[i] == a && d[j] == b)
            || (d[i] == b && d[j] == a)));
    }
}

} // verus!
