//! What holds of every planned shift.

use vstd::prelude::*;
use crate::ranking::{
    first_choice, ids_of, leading, lemma_first_choice_in_range, lemma_leading_len, Ranked,
};
use crate::repair::{
    admitted, leavers, locked, newcomers, noted_if, partner_in, partners_of, planned, reinforced,
    removable, removable_test, round, shed, trimmed, wanted, with_partners, without,
    without_test, Verdict, Warning,
};
use crate::roster::{bound, headcount, in_role, Member, Quota, Relation, RelationshipKind, Role};
use crate::scoring::{ranked, Setting};
use crate::selection::{
    after_brothers, after_managers, after_sisters, drawn, eligible, eligible_test, greedy,
};
use crate::counting::{
    both, but_not, count, lemma_count_bound, lemma_count_filtered, lemma_count_is_filter_len,
    lemma_count_mono, lemma_count_remove, lemma_count_same, lemma_count_single,
    lemma_count_split, lemma_filter_no_duplicates, lemma_push_no_duplicates,
};
use crate::table::lemma_filter_member;

verus! {

/// Whether every entry of `sel` is an entry of `pool`.
pub open spec fn all_in(sel: Seq<i64>, pool: Seq<i64>) -> bool {
    forall|x: i64| sel.contains(x) ==> pool.contains(x)
}

/// An entry that a filter keeps was there before and passes the test.
pub proof fn lemma_kept_passes(rows: Seq<i64>, keep: spec_fn(i64) -> bool, x: i64)
    requires
        rows.filter(keep).contains(x),
    ensures
        rows.contains(x),
        keep(x),
{
    let i = choose|i: int| 0 <= i < rows.filter(keep).len() && rows.filter(keep)[i] == x;
    lemma_filter_member(rows, keep, i);
}

/// An entry that passes the test of a filter is kept.
pub proof fn lemma_passing_kept(rows: Seq<i64>, keep: spec_fn(i64) -> bool, x: i64)
    requires
        rows.contains(x),
        keep(x),
    ensures
        rows.filter(keep).contains(x),
{
    let i = choose|i: int| 0 <= i < rows.len() && rows[i] == x;
    rows.lemma_filter_contains(keep, i);
}

/// The ids that `leading` yields are ids of the entries.
#[verifier::rlimit(60)]
pub proof fn lemma_leading_known(entries: Seq<Ranked>, k: nat, lowest: bool, x: i64)
    requires
        leading(entries, k, lowest).contains(x),
    ensures
        ids_of(entries).contains(x),
    decreases k,
{
    if k > 0 && entries.len() > 0 {
        let i = first_choice(entries, lowest);
        lemma_first_choice_in_range(entries, lowest);
        let rest = leading(entries.remove(i), (k - 1) as nat, lowest);
        let all = seq![entries[i].id] + rest;
        let j = choose|j: int| 0 <= j < all.len() && all[j] == x;
        if j == 0 {
            assert(ids_of(entries)[i] == x);
        } else {
            assert(rest[j - 1] == x);
            lemma_leading_known(entries.remove(i), (k - 1) as nat, lowest, x);
            let m = choose|m: int|
                0 <= m < ids_of(entries.remove(i)).len() && ids_of(entries.remove(i))[m] == x;
            if m < i {
                assert(ids_of(entries)[m] == x);
            } else {
                assert(ids_of(entries)[m + 1] == x);
            }
        }
    }
}

/// The candidates with their scores have the ids of the candidates.
pub proof fn lemma_ranked_ids(s: Setting, basis: Seq<i64>, cands: Seq<i64>)
    ensures
        ids_of(ranked(s, basis, cands)) == cands,
        ranked(s, basis, cands).len() == cands.len(),
{
    assert(ids_of(ranked(s, basis, cands)) =~= cands);
}

/// Who is taken from ranked candidates is one of the candidates.
pub proof fn lemma_taken_known(
    s: Setting,
    basis: Seq<i64>,
    cands: Seq<i64>,
    k: nat,
    lowest: bool,
    x: i64,
)
    requires
        leading(ranked(s, basis, cands), k, lowest).contains(x),
    ensures
        cands.contains(x),
{
    lemma_leading_known(ranked(s, basis, cands), k, lowest, x);
    lemma_ranked_ids(s, basis, cands);
}

/// What is left of a selection was in it.
pub proof fn lemma_without_within(sel: Seq<i64>, gone: Seq<i64>, pool: Seq<i64>)
    requires
        all_in(sel, pool),
    ensures
        all_in(without(sel, gone), pool),
        all_in(without(sel, gone), sel),
{
    assert forall|x: i64| without(sel, gone).contains(x) implies sel.contains(x) by {
        lemma_kept_passes(sel, without_test(gone), x);
    }
}

/// A phase of the greedy pass draws from the pool.
pub proof fn lemma_drawn_within(s: Setting, pool: Seq<i64>, sel: Seq<i64>, role: Role, k: nat)
    requires
        all_in(sel, pool),
    ensures
        all_in(drawn(s, pool, sel, role, k), pool),
        all_in(sel, drawn(s, pool, sel, role, k)),
{
    let cands = eligible(s.roster, pool, sel, role);
    let more = leading(ranked(s, sel, cands), k, false);
    let out = sel + more;
    assert forall|x: i64| out.contains(x) implies pool.contains(x) by {
        let j = choose|j: int| 0 <= j < out.len() && out[j] == x;
        if j < sel.len() {
            assert(sel[j] == x);
        } else {
            assert(more[j - sel.len()] == x);
            lemma_taken_known(s, sel, cands, k, false, x);
            lemma_kept_passes(pool, eligible_test(s.roster, sel, role), x);
        }
    }
    assert forall|x: i64| sel.contains(x) implies out.contains(x) by {
        let j = choose|j: int| 0 <= j < sel.len() && sel[j] == x;
        assert(out[j] == x);
    }
}

/// The greedy pass selects candidates only.
pub proof fn lemma_greedy_within(s: Setting, pool: Seq<i64>, q: Quota)
    ensures
        all_in(greedy(s, pool, q), pool),
{
    let none = Seq::<i64>::empty();
    assert(all_in(none, pool));
    lemma_drawn_within(s, pool, none, Role::Manager, q.managers as nat);
    let a = after_managers(s, pool, q);
    let more = crate::selection::shortfall(q.brothers as nat, headcount(s.roster, a, Role::Male));
    lemma_drawn_within(s, pool, a, Role::Male, more);
    let b = after_brothers(s, pool, q);
    lemma_drawn_within(s, pool, b, Role::Female, q.sisters as nat);
    let c = after_sisters(s, pool, q);
    lemma_drawn_within(
        s,
        pool,
        c,
        Role::Anyone,
        crate::selection::shortfall(q.capacity as nat, c.len()),
    );
}

/// Admitting partners keeps the selection, and adds candidates only.
pub proof fn lemma_admitted_within(pool: Seq<i64>, sel: Seq<i64>, extra: Seq<i64>)
    requires
        all_in(sel, pool),
    ensures
        all_in(admitted(pool, sel, extra), pool),
        all_in(sel, admitted(pool, sel, extra)),
    decreases extra.len(),
{
    if extra.len() > 0 {
        lemma_admitted_within(pool, sel, extra.drop_last());
        let cur = admitted(pool, sel, extra.drop_last());
        let o = extra.last();
        if !cur.contains(o) && pool.contains(o) {
            let out = cur.push(o);
            assert forall|x: i64| out.contains(x) implies pool.contains(x) by {
                let j = choose|j: int| 0 <= j < out.len() && out[j] == x;
                if j < cur.len() {
                    assert(cur[j] == x);
                }
            }
            assert forall|x: i64| sel.contains(x) implies out.contains(x) by {
                let j = choose|j: int| 0 <= j < cur.len() && cur[j] == x;
                assert(out[j] == x);
            }
        }
    }
}

/// One round of restoring a minimum keeps the selection within the pool.
#[verifier::rlimit(60)]
pub proof fn lemma_round_within(
    s: Setting,
    pool: Seq<i64>,
    q: Quota,
    held: Seq<i64>,
    role: Role,
    need: nat,
    sel: Seq<i64>,
)
    requires
        all_in(sel, pool),
    ensures
        all_in(round(s, pool, q, held, role, need, sel).0, pool),
{
    reveal(round);
    let r = round(s, pool, q, held, role, need, sel);
    if r.1 == Verdict::Next {
        let cands = newcomers(s, pool, q, sel, role);
        lemma_leading_len(ranked(s, sel, cands), 1, false);
        lemma_ranked_ids(s, sel, cands);
        let best = leading(ranked(s, sel, cands), 1, false);
        let add = best[0];
        assert(best.contains(add));
        lemma_taken_known(s, sel, cands, 1, false, add);
        assert(pool.contains(add)) by {
            if cands == eligible(s.roster, pool, sel, Role::PlainMale) {
                lemma_kept_passes(pool, eligible_test(s.roster, sel, Role::PlainMale), add);
            } else {
                lemma_kept_passes(pool, eligible_test(s.roster, sel, role), add);
            }
        }
        let base = if sel.len() >= q.capacity {
            without(sel, leading(ranked(s, sel, leavers(s, held, sel, role)), 1, true))
        } else {
            sel
        };
        if sel.len() >= q.capacity {
            lemma_without_within(
                sel,
                leading(ranked(s, sel, leavers(s, held, sel, role)), 1, true),
                pool,
            );
        }
        assert(r.0 == base.push(add));
        assert forall|x: i64| r.0.contains(x) implies pool.contains(x) by {
            let j = choose|j: int| 0 <= j < r.0.len() && r.0[j] == x;
            if j < base.len() {
                assert(base[j] == x);
            }
        }
    }
}

/// Restoring a minimum keeps the selection within the pool.
pub proof fn lemma_reinforced_within(
    s: Setting,
    pool: Seq<i64>,
    q: Quota,
    held: Seq<i64>,
    role: Role,
    need: nat,
    rounds: nat,
    sel: Seq<i64>,
)
    requires
        all_in(sel, pool),
    ensures
        all_in(reinforced(s, pool, q, held, role, need, rounds, sel).0, pool),
    decreases rounds,
{
    if rounds > 0 {
        let r = round(s, pool, q, held, role, need, sel);
        lemma_round_within(s, pool, q, held, role, need, sel);
        if r.1 == Verdict::Next {
            lemma_reinforced_within(s, pool, q, held, role, need, (rounds - 1) as nat, r.0);
        }
    }
}

/// Cutting to capacity keeps the selection within the pool.
pub proof fn lemma_trimmed_within(
    s: Setting,
    q: Quota,
    sel: Seq<i64>,
    warning: Option<Warning>,
    pool: Seq<i64>,
)
    requires
        all_in(sel, pool),
    ensures
        all_in(trimmed(s, q, sel, warning).0, pool),
{
    if sel.len() > q.capacity {
        let free = removable(s.roster, s.rels, sel, sel, Role::Anyone);
        let gone = leading(ranked(s, sel, free), (sel.len() - q.capacity) as nat, true);
        let kept = without(sel, gone);
        lemma_without_within(sel, gone, pool);
        if kept.len() > q.capacity {
            let more = leading(ranked(s, kept, kept), (kept.len() - q.capacity) as nat, true);
            lemma_without_within(kept, more, pool);
        }
    }
}

/// Every publisher of a planned shift is one of the candidates.
pub proof fn lemma_planned_within(s: Setting, pool: Seq<i64>, q: Quota)
    ensures
        all_in(planned(s, pool, q).publishers, pool),
{
    let sel = greedy(s, pool, q);
    lemma_greedy_within(s, pool, q);
    let held = with_partners(s.rels, pool, sel);
    lemma_admitted_within(pool, sel, wanted(s.rels, sel));
    let c = shed(s, q, held, held);
    assert(all_in(c.0, pool)) by {
        if headcount(s.roster, held, Role::Manager) > q.managers {
            let free = removable(s.roster, s.rels, held, held, Role::Manager);
            let gone = leading(
                ranked(s, held, free),
                (headcount(s.roster, held, Role::Manager) - q.managers) as nat,
                true,
            );
            lemma_without_within(held, gone, pool);
        }
    }
    let d = reinforced(s, pool, q, held, Role::Female, q.sisters as nat, q.sisters as nat, c.0);
    lemma_reinforced_within(
        s,
        pool,
        q,
        held,
        Role::Female,
        q.sisters as nat,
        q.sisters as nat,
        c.0,
    );
    let e = reinforced(s, pool, q, held, Role::Male, q.brothers as nat, q.brothers as nat, d.0);
    lemma_reinforced_within(
        s,
        pool,
        q,
        held,
        Role::Male,
        q.brothers as nat,
        q.brothers as nat,
        d.0,
    );
    lemma_trimmed_within(s, q, e.0, noted_if(noted_if(c.1, d.1), e.1), pool);
}

/// Taking the leading `k` of a list out of it leaves at least `k` fewer,
/// or none.
#[verifier::rlimit(60)]
pub proof fn lemma_without_leading_len(
    ids: Seq<i64>,
    entries: Seq<Ranked>,
    k: nat,
    lowest: bool,
)
    requires
        ids_of(entries) == ids,
    ensures
        without(ids, leading(entries, k, lowest)).len() + (if k <= ids.len() {
            k
        } else {
            ids.len()
        }) <= ids.len(),
    decreases k,
{
    let gone = leading(entries, k, lowest);
    lemma_count_is_filter_len(ids, without_test(gone));
    lemma_count_bound(ids, without_test(gone));
    if k > 0 && entries.len() > 0 {
        let i = first_choice(entries, lowest);
        lemma_first_choice_in_range(entries, lowest);
        let rest = entries.remove(i);
        let later = leading(rest, (k - 1) as nat, lowest);
        assert(gone == seq![entries[i].id] + later);
        assert(ids_of(rest) =~= ids.remove(i));
        lemma_without_leading_len(ids.remove(i), rest, (k - 1) as nat, lowest);
        lemma_count_is_filter_len(ids.remove(i), without_test(later));
        lemma_count_remove(ids, i, without_test(gone));
        assert(gone[0] == ids[i]);
        assert(gone.contains(ids[i]));
        assert forall|x: i64| ids.remove(i).contains(x) && without_test(gone)(
            x,
        ) implies without_test(later)(x) by {
            if later.contains(x) {
                let j = choose|j: int| 0 <= j < later.len() && later[j] == x;
                assert(gone[j + 1] == x);
            }
        }
        lemma_count_mono(ids.remove(i), without_test(gone), without_test(later));
    }
}

/// The test that an entry belongs to the group `role`.
pub open spec fn role_test(roster: Seq<Member>, role: Role) -> spec_fn(i64) -> bool {
    |x: i64| in_role(roster, x, role)
}

/// The headcount of a group is the count of the entries that belong to it.
pub proof fn lemma_headcount_is_count(roster: Seq<Member>, sel: Seq<i64>, role: Role)
    ensures
        headcount(roster, sel, role) == count(sel, role_test(roster, role)),
    decreases sel.len(),
{
    if sel.len() > 0 {
        lemma_headcount_is_count(roster, sel.drop_last(), role);
    }
}

/// Where the leading `k` of those members of `sel` that pass `t` leave, and
/// all that pass `t` pass `c`, the count by `c` falls by `k` at least.
#[verifier::rlimit(60)]
pub proof fn lemma_leaving_lowers_count(
    sel: Seq<i64>,
    t: spec_fn(i64) -> bool,
    c: spec_fn(i64) -> bool,
    entries: Seq<Ranked>,
    k: nat,
    lowest: bool,
)
    requires
        ids_of(entries) == sel.filter(t),
        forall|x: i64| sel.contains(x) && t(x) ==> c(x),
        k <= entries.len(),
    ensures
        count(without(sel, leading(entries, k, lowest)), c) + k <= count(sel, c),
{
    let gone = leading(entries, k, lowest);
    let wt = without_test(gone);
    let sub = sel.filter(t);
    lemma_count_filtered(sel, wt, c);
    lemma_count_split(sel, both(wt, c), t);
    assert forall|x: i64| sel.contains(x) implies both(both(wt, c), t)(x) == both(t, wt)(x) by {}
    lemma_count_same(sel, both(both(wt, c), t), both(t, wt));
    lemma_count_filtered(sel, t, wt);
    lemma_count_is_filter_len(sub, wt);
    lemma_without_leading_len(sub, entries, k, lowest);
    assert(sub.len() == entries.len());
    assert forall|x: i64| sel.contains(x) && but_not(both(wt, c), t)(x) implies but_not(c, t)(
        x,
    ) by {}
    lemma_count_mono(sel, but_not(both(wt, c), t), but_not(c, t));
    lemma_count_split(sel, c, t);
    assert forall|x: i64| sel.contains(x) implies both(c, t)(x) == t(x) by {}
    lemma_count_same(sel, both(c, t), t);
    lemma_count_is_filter_len(sel, t);
}

/// Cutting to capacity leaves no more than the capacity.
pub proof fn lemma_trimmed_len(s: Setting, q: Quota, sel: Seq<i64>, warning: Option<Warning>)
    ensures
        trimmed(s, q, sel, warning).0.len() <= q.capacity,
        sel.len() <= q.capacity ==> trimmed(s, q, sel, warning) == (sel, warning),
        sel.len() > q.capacity ==> trimmed(s, q, sel, warning).1 is Some,
{
    if sel.len() > q.capacity {
        let free = removable(s.roster, s.rels, sel, sel, Role::Anyone);
        let gone = leading(ranked(s, sel, free), (sel.len() - q.capacity) as nat, true);
        let kept = without(sel, gone);
        if kept.len() > q.capacity {
            let k = (kept.len() - q.capacity) as nat;
            lemma_ranked_ids(s, kept, kept);
            lemma_without_leading_len(kept, ranked(s, kept, kept), k, true);
        }
    }
}

/// A planned shift has no more publishers than the shift has places.
pub proof fn capacity_ceiling(s: Setting, pool: Seq<i64>, q: Quota)
    ensures
        planned(s, pool, q).publishers.len() <= q.capacity,
{
    let sel = greedy(s, pool, q);
    let held = with_partners(s.rels, pool, sel);
    let c = shed(s, q, held, held);
    let d = reinforced(s, pool, q, held, Role::Female, q.sisters as nat, q.sisters as nat, c.0);
    let e = reinforced(s, pool, q, held, Role::Male, q.brothers as nat, q.brothers as nat, d.0);
    lemma_trimmed_len(s, q, e.0, noted_if(noted_if(c.1, d.1), e.1));
}

// ------------------------------------------------------------ the stages

/// The greedy selection with the eligible mandatory partners of its
/// members: who is held in the shift when the repair begins.
pub open spec fn held_of(s: Setting, pool: Seq<i64>, q: Quota) -> Seq<i64> {
    with_partners(s.rels, pool, greedy(s, pool, q))
}

/// The selection after surplus managers have left, with the warning of
/// that step.
pub open spec fn managers_shed(s: Setting, pool: Seq<i64>, q: Quota) -> (Seq<i64>, Option<Warning>) {
    shed(s, q, held_of(s, pool, q), held_of(s, pool, q))
}

/// The selection after the minimum of sisters has been restored, with the
/// warning of that step.
pub open spec fn sisters_restored(s: Setting, pool: Seq<i64>, q: Quota) -> (
    Seq<i64>,
    Option<Warning>,
) {
    reinforced(
        s,
        pool,
        q,
        held_of(s, pool, q),
        Role::Female,
        q.sisters as nat,
        q.sisters as nat,
        managers_shed(s, pool, q).0,
    )
}

/// The selection after the minimum of brothers has been restored, with the
/// warning of that step.
pub open spec fn brothers_restored(s: Setting, pool: Seq<i64>, q: Quota) -> (
    Seq<i64>,
    Option<Warning>,
) {
    reinforced(
        s,
        pool,
        q,
        held_of(s, pool, q),
        Role::Male,
        q.brothers as nat,
        q.brothers as nat,
        sisters_restored(s, pool, q).0,
    )
}

/// A shift planned without a warning is the selection after the minima
/// were restored: no step gave a warning, nothing was cut, and every place
/// is taken.
pub proof fn lemma_plan_without_warning(s: Setting, pool: Seq<i64>, q: Quota)
    requires
        planned(s, pool, q).warning is None,
    ensures
        managers_shed(s, pool, q).1 is None,
        sisters_restored(s, pool, q).1 is None,
        brothers_restored(s, pool, q).1 is None,
        planned(s, pool, q).publishers == brothers_restored(s, pool, q).0,
        planned(s, pool, q).publishers.len() == q.capacity,
{
    let c = managers_shed(s, pool, q);
    let d = sisters_restored(s, pool, q);
    let e = brothers_restored(s, pool, q);
    lemma_trimmed_len(s, q, e.0, noted_if(noted_if(c.1, d.1), e.1));
}

/// A shift that had to be cut to its capacity carries a warning.
pub proof fn cut_is_warned(s: Setting, pool: Seq<i64>, q: Quota)
    requires
        brothers_restored(s, pool, q).0.len() > q.capacity,
    ensures
        planned(s, pool, q).warning is Some,
{
    let c = managers_shed(s, pool, q);
    let d = sisters_restored(s, pool, q);
    let e = brothers_restored(s, pool, q);
    lemma_trimmed_len(s, q, e.0, noted_if(noted_if(c.1, d.1), e.1));
}

/// Where the members held by mandatory pairs alone are more than the shift
/// has places, so that some of them had to go, the shift carries the
/// warning of the capacity compromise, whatever was noted before.
pub proof fn broken_pairs_are_warned(s: Setting, pool: Seq<i64>, q: Quota)
    requires
        brothers_restored(s, pool, q).0.len() > q.capacity,
        ({
            let sel = brothers_restored(s, pool, q).0;
            let free = removable(s.roster, s.rels, sel, sel, Role::Anyone);
            without(
                sel,
                leading(ranked(s, sel, free), (sel.len() - q.capacity) as nat, true),
            ).len() > q.capacity
        }),
    ensures
        planned(s, pool, q).warning == Some(Warning::CapacityCompromise),
{
    let c = managers_shed(s, pool, q);
    let d = sisters_restored(s, pool, q);
    let e = brothers_restored(s, pool, q);
    lemma_trimmed_len(s, q, e.0, noted_if(noted_if(c.1, d.1), e.1));
}

// -------------------------------------------------------- no duplicates

/// The leading ids of entries with different ids are different.
#[verifier::rlimit(60)]
pub proof fn lemma_leading_no_duplicates(entries: Seq<Ranked>, k: nat, lowest: bool)
    requires
        ids_of(entries).no_duplicates(),
    ensures
        leading(entries, k, lowest).no_duplicates(),
    decreases k,
{
    if k > 0 && entries.len() > 0 {
        let i = first_choice(entries, lowest);
        lemma_first_choice_in_range(entries, lowest);
        let ids = ids_of(entries);
        let rest = entries.remove(i);
        assert(ids_of(rest) =~= ids.remove(i));
        assert(ids.remove(i).no_duplicates()) by {
            assert forall|a: int, b: int|
                0 <= a < ids.remove(i).len() && 0 <= b < ids.remove(i).len() && a
                    != b implies ids.remove(i)[a] != ids.remove(i)[b] by {
                let a2 = if a < i {
                    a
                } else {
                    a + 1
                };
                let b2 = if b < i {
                    b
                } else {
                    b + 1
                };
                assert(ids[a2] != ids[b2]);
            }
        }
        lemma_leading_no_duplicates(rest, (k - 1) as nat, lowest);
        let later = leading(rest, (k - 1) as nat, lowest);
        assert(!later.contains(ids[i])) by {
            if later.contains(ids[i]) {
                lemma_leading_known(rest, (k - 1) as nat, lowest, ids[i]);
                let m = choose|m: int| 0 <= m < ids.remove(i).len() && ids.remove(i)[m] == ids[i];
                let m2 = if m < i {
                    m
                } else {
                    m + 1
                };
                assert(ids[m2] == ids[i]);
            }
        }
        let out = seq![entries[i].id] + later;
        assert forall|a: int, b: int| 0 <= a < out.len() && 0 <= b < out.len() && a
            != b implies out[a] != out[b] by {
            if a > 0 && b > 0 {
                assert(later[a - 1] != later[b - 1]);
            } else if a == 0 {
                assert(later.contains(later[b - 1]));
            } else {
                assert(later.contains(later[a - 1]));
            }
        }
    }
}

/// A phase of the greedy pass adds nobody twice.
pub proof fn lemma_drawn_no_duplicates(
    s: Setting,
    pool: Seq<i64>,
    sel: Seq<i64>,
    role: Role,
    k: nat,
)
    requires
        pool.no_duplicates(),
        sel.no_duplicates(),
    ensures
        drawn(s, pool, sel, role, k).no_duplicates(),
{
    let cands = eligible(s.roster, pool, sel, role);
    lemma_filter_no_duplicates(pool, eligible_test(s.roster, sel, role));
    lemma_ranked_ids(s, sel, cands);
    let more = leading(ranked(s, sel, cands), k, false);
    lemma_leading_no_duplicates(ranked(s, sel, cands), k, false);
    assert forall|i: int, j: int| 0 <= i < sel.len() && 0 <= j < more.len() implies sel[i]
        != more[j] by {
        assert(more.contains(more[j]));
        lemma_taken_known(s, sel, cands, k, false, more[j]);
        lemma_kept_passes(pool, eligible_test(s.roster, sel, role), more[j]);
        assert(sel.contains(sel[i]));
    }
    vstd::seq_lib::lemma_no_dup_in_concat(sel, more);
}

/// The greedy pass selects nobody twice.
pub proof fn lemma_greedy_no_duplicates(s: Setting, pool: Seq<i64>, q: Quota)
    requires
        pool.no_duplicates(),
    ensures
        greedy(s, pool, q).no_duplicates(),
{
    let none = Seq::<i64>::empty();
    lemma_drawn_no_duplicates(s, pool, none, Role::Manager, q.managers as nat);
    let a = after_managers(s, pool, q);
    let more = crate::selection::shortfall(q.brothers as nat, headcount(s.roster, a, Role::Male));
    lemma_drawn_no_duplicates(s, pool, a, Role::Male, more);
    let b = after_brothers(s, pool, q);
    lemma_drawn_no_duplicates(s, pool, b, Role::Female, q.sisters as nat);
    let c = after_sisters(s, pool, q);
    lemma_drawn_no_duplicates(
        s,
        pool,
        c,
        Role::Anyone,
        crate::selection::shortfall(q.capacity as nat, c.len()),
    );
}

/// Admitting partners adds nobody twice.
pub proof fn lemma_admitted_no_duplicates(pool: Seq<i64>, sel: Seq<i64>, extra: Seq<i64>)
    requires
        sel.no_duplicates(),
    ensures
        admitted(pool, sel, extra).no_duplicates(),
    decreases extra.len(),
{
    if extra.len() > 0 {
        lemma_admitted_no_duplicates(pool, sel, extra.drop_last());
        let cur = admitted(pool, sel, extra.drop_last());
        let o = extra.last();
        if !cur.contains(o) && pool.contains(o) {
            lemma_push_no_duplicates(cur, o);
        }
    }
}

/// The best newcomer for a minimum is a candidate of the group, and is not
/// selected yet.
#[verifier::rlimit(60)]
pub proof fn lemma_newcomer(
    s: Setting,
    pool: Seq<i64>,
    q: Quota,
    sel: Seq<i64>,
    role: Role,
)
    requires
        role == Role::Male || role == Role::Female,
        newcomers(s, pool, q, sel, role).len() > 0,
    ensures
        leading(ranked(s, sel, newcomers(s, pool, q, sel, role)), 1, false).len() == 1,
        pool.contains(leading(ranked(s, sel, newcomers(s, pool, q, sel, role)), 1, false)[0]),
        !sel.contains(leading(ranked(s, sel, newcomers(s, pool, q, sel, role)), 1, false)[0]),
        in_role(
            s.roster,
            leading(ranked(s, sel, newcomers(s, pool, q, sel, role)), 1, false)[0],
            role,
        ),
        role == Role::Male && headcount(s.roster, sel, Role::Manager) >= q.managers && eligible(
            s.roster,
            pool,
            sel,
            Role::PlainMale,
        ).len() > 0 ==> in_role(
            s.roster,
            leading(ranked(s, sel, newcomers(s, pool, q, sel, role)), 1, false)[0],
            Role::PlainMale,
        ),
{
    let cands = newcomers(s, pool, q, sel, role);
    lemma_leading_len(ranked(s, sel, cands), 1, false);
    lemma_ranked_ids(s, sel, cands);
    let best = leading(ranked(s, sel, cands), 1, false);
    let add = best[0];
    assert(best.contains(add));
    lemma_taken_known(s, sel, cands, 1, false, add);
    if role == Role::Male && headcount(s.roster, sel, Role::Manager) >= q.managers && eligible(
        s.roster,
        pool,
        sel,
        Role::PlainMale,
    ).len() > 0 {
        lemma_kept_passes(pool, eligible_test(s.roster, sel, Role::PlainMale), add);
        let k = choose|k: int|
            0 <= k < s.roster.len() && #[trigger] s.roster[k].id == add && s.roster[k].fits(
                Role::PlainMale,
            );
        assert(s.roster[k].fits(Role::Male));
    } else {
        lemma_kept_passes(pool, eligible_test(s.roster, sel, role), add);
    }
}

/// Who leaves for a newcomer is selected, belongs to the other gender, and
/// is not locked.
#[verifier::rlimit(60)]
pub proof fn lemma_leaver(s: Setting, held: Seq<i64>, sel: Seq<i64>, role: Role)
    requires
        role == Role::Male || role == Role::Female,
        leavers(s, held, sel, role).len() > 0,
    ensures
        leading(ranked(s, sel, leavers(s, held, sel, role)), 1, true).len() == 1,
        sel.contains(leading(ranked(s, sel, leavers(s, held, sel, role)), 1, true)[0]),
        !locked(s.rels, held, leading(ranked(s, sel, leavers(s, held, sel, role)), 1, true)[0]),
        in_role(
            s.roster,
            leading(ranked(s, sel, leavers(s, held, sel, role)), 1, true)[0],
            if role == Role::Female {
                Role::Male
            } else {
                Role::Female
            },
        ),
{
    let out = leavers(s, held, sel, role);
    lemma_leading_len(ranked(s, sel, out), 1, true);
    lemma_ranked_ids(s, sel, out);
    let gone = leading(ranked(s, sel, out), 1, true);
    let g = gone[0];
    assert(gone.contains(g));
    lemma_taken_known(s, sel, out, 1, true, g);
    if role == Role::Female {
        if removable(s.roster, s.rels, held, sel, Role::PlainMale).len() > 0 {
            lemma_kept_passes(sel, removable_test(s.roster, s.rels, held, Role::PlainMale), g);
            let k = choose|k: int|
                0 <= k < s.roster.len() && #[trigger] s.roster[k].id == g && s.roster[k].fits(
                    Role::PlainMale,
                );
            assert(s.roster[k].fits(Role::Male));
        } else {
            lemma_kept_passes(sel, removable_test(s.roster, s.rels, held, Role::Male), g);
        }
    } else {
        lemma_kept_passes(sel, removable_test(s.roster, s.rels, held, Role::Female), g);
    }
}

/// One round of restoring a minimum adds nobody twice.
pub proof fn lemma_round_no_duplicates(
    s: Setting,
    pool: Seq<i64>,
    q: Quota,
    held: Seq<i64>,
    role: Role,
    need: nat,
    sel: Seq<i64>,
)
    requires
        role == Role::Male || role == Role::Female,
        sel.no_duplicates(),
    ensures
        round(s, pool, q, held, role, need, sel).0.no_duplicates(),
{
    reveal(round);
    let r = round(s, pool, q, held, role, need, sel);
    if r.1 == Verdict::Next {
        lemma_newcomer(s, pool, q, sel, role);
        let add = leading(ranked(s, sel, newcomers(s, pool, q, sel, role)), 1, false)[0];
        if sel.len() >= q.capacity {
            let gone = leading(ranked(s, sel, leavers(s, held, sel, role)), 1, true);
            lemma_filter_no_duplicates(sel, without_test(gone));
            assert(!without(sel, gone).contains(add)) by {
                if without(sel, gone).contains(add) {
                    lemma_kept_passes(sel, without_test(gone), add);
                }
            }
            lemma_push_no_duplicates(without(sel, gone), add);
        } else {
            lemma_push_no_duplicates(sel, add);
        }
    }
}

/// Restoring a minimum adds nobody twice.
pub proof fn lemma_reinforced_no_duplicates(
    s: Setting,
    pool: Seq<i64>,
    q: Quota,
    held: Seq<i64>,
    role: Role,
    need: nat,
    rounds: nat,
    sel: Seq<i64>,
)
    requires
        role == Role::Male || role == Role::Female,
        sel.no_duplicates(),
    ensures
        reinforced(s, pool, q, held, role, need, rounds, sel).0.no_duplicates(),
    decreases rounds,
{
    if rounds > 0 {
        let r = round(s, pool, q, held, role, need, sel);
        lemma_round_no_duplicates(s, pool, q, held, role, need, sel);
        if r.1 == Verdict::Next {
            lemma_reinforced_no_duplicates(s, pool, q, held, role, need, (rounds - 1) as nat, r.0);
        }
    }
}

/// Nobody is held twice when the repair begins, nor after surplus managers
/// have left, nor after the sisters were restored.
pub proof fn lemma_stages_sound(s: Setting, pool: Seq<i64>, q: Quota)
    requires
        pool.no_duplicates(),
    ensures
        held_of(s, pool, q).no_duplicates(),
        managers_shed(s, pool, q).0.no_duplicates(),
        sisters_restored(s, pool, q).0.no_duplicates(),
        all_in(held_of(s, pool, q), pool),
        all_in(managers_shed(s, pool, q).0, pool),
        all_in(sisters_restored(s, pool, q).0, pool),
        all_in(greedy(s, pool, q), held_of(s, pool, q)),
{
    let sel = greedy(s, pool, q);
    lemma_greedy_no_duplicates(s, pool, q);
    lemma_greedy_within(s, pool, q);
    lemma_admitted_no_duplicates(pool, sel, wanted(s.rels, sel));
    lemma_admitted_within(pool, sel, wanted(s.rels, sel));
    let held = held_of(s, pool, q);
    if headcount(s.roster, held, Role::Manager) > q.managers {
        let free = removable(s.roster, s.rels, held, held, Role::Manager);
        let gone = leading(
            ranked(s, held, free),
            (headcount(s.roster, held, Role::Manager) - q.managers) as nat,
            true,
        );
        lemma_filter_no_duplicates(held, without_test(gone));
        lemma_without_within(held, gone, pool);
    }
    let c = managers_shed(s, pool, q);
    lemma_reinforced_no_duplicates(
        s,
        pool,
        q,
        held,
        Role::Female,
        q.sisters as nat,
        q.sisters as nat,
        c.0,
    );
    lemma_reinforced_within(
        s,
        pool,
        q,
        held,
        Role::Female,
        q.sisters as nat,
        q.sisters as nat,
        c.0,
    );
}

// ---------------------------------------------------- mandatory partners

/// A mandatory relationship binds both ways.
pub proof fn lemma_bound_both_ways(rels: Seq<Relation>, p: i64, o: i64)
    requires
        bound(rels, p, o),
    ensures
        bound(rels, o, p),
{
    let k = choose|k: int|
        0 <= k < rels.len() && (#[trigger] rels[k]).kind == RelationshipKind::Mandatory
            && rels[k].links(p, o);
    assert(rels[k].links(o, p));
}

/// Whoever is bound to `p` is listed among the mandatory partners of `p`.
pub proof fn lemma_partner_listed(rels: Seq<Relation>, p: i64, o: i64)
    requires
        bound(rels, p, o),
    ensures
        partners_of(rels, p).contains(o),
    decreases rels.len(),
{
    let k = choose|k: int|
        0 <= k < rels.len() && (#[trigger] rels[k]).kind == RelationshipKind::Mandatory
            && rels[k].links(p, o);
    let front = partners_of(rels.drop_last(), p);
    if k == rels.len() - 1 {
        assert(partner_in(rels.last(), p) == Some(o));
        assert(front.push(o)[front.len() as int] == o);
    } else {
        assert(rels.drop_last()[k] == rels[k]);
        lemma_partner_listed(rels.drop_last(), p, o);
        let j = choose|j: int| 0 <= j < front.len() && front[j] == o;
        match partner_in(rels.last(), p) {
            Some(x) => {
                assert(front.push(x)[j] == o);
            },
            None => {},
        }
    }
}

/// The partners of a member of `sel` are among those wanted for `sel`.
pub proof fn lemma_wanted_covers(rels: Seq<Relation>, sel: Seq<i64>, p: i64, o: i64)
    requires
        sel.contains(p),
        partners_of(rels, p).contains(o),
    ensures
        wanted(rels, sel).contains(o),
    decreases sel.len(),
{
    let front = wanted(rels, sel.drop_last());
    let tail = partners_of(rels, sel.last());
    if sel.last() == p {
        let j = choose|j: int| 0 <= j < tail.len() && tail[j] == o;
        assert((front + tail)[front.len() + j] == o);
    } else {
        let i = choose|i: int| 0 <= i < sel.len() && sel[i] == p;
        assert(sel.drop_last()[i] == p);
        lemma_wanted_covers(rels, sel.drop_last(), p, o);
        let j = choose|j: int| 0 <= j < front.len() && front[j] == o;
        assert((front + tail)[j] == o);
    }
}

/// Every candidate among those to be admitted is selected afterwards.
pub proof fn lemma_admitted_covers(pool: Seq<i64>, sel: Seq<i64>, extra: Seq<i64>, o: i64)
    requires
        extra.contains(o),
        pool.contains(o),
    ensures
        admitted(pool, sel, extra).contains(o),
    decreases extra.len(),
{
    let cur = admitted(pool, sel, extra.drop_last());
    let last = extra.last();
    let out = admitted(pool, sel, extra);
    if last == o {
        if !cur.contains(o) {
            assert(out[cur.len() as int] == o);
        }
    } else {
        let i = choose|i: int| 0 <= i < extra.len() && extra[i] == o;
        assert(extra.drop_last()[i] == o);
        lemma_admitted_covers(pool, sel, extra.drop_last(), o);
        let j = choose|j: int| 0 <= j < cur.len() && cur[j] == o;
        if !cur.contains(last) && pool.contains(last) {
            assert(out[j] == o);
        }
    }
}

/// A member that is locked stays when surplus managers leave.
pub proof fn lemma_locked_survives_shedding(s: Setting, q: Quota, held: Seq<i64>, x: i64)
    requires
        held.contains(x),
        locked(s.rels, held, x),
    ensures
        shed(s, q, held, held).0.contains(x),
{
    let have = headcount(s.roster, held, Role::Manager);
    if have > q.managers {
        let free = removable(s.roster, s.rels, held, held, Role::Manager);
        let gone = leading(ranked(s, held, free), (have - q.managers) as nat, true);
        if gone.contains(x) {
            lemma_taken_known(s, held, free, (have - q.managers) as nat, true, x);
            lemma_kept_passes(held, removable_test(s.roster, s.rels, held, Role::Manager), x);
        }
        lemma_passing_kept(held, without_test(gone), x);
    }
}

/// A member that is locked stays through a round of restoring a minimum.
pub proof fn lemma_locked_survives_round(
    s: Setting,
    pool: Seq<i64>,
    q: Quota,
    held: Seq<i64>,
    role: Role,
    need: nat,
    sel: Seq<i64>,
    x: i64,
)
    requires
        role == Role::Male || role == Role::Female,
        sel.contains(x),
        locked(s.rels, held, x),
    ensures
        round(s, pool, q, held, role, need, sel).0.contains(x),
{
    reveal(round);
    let r = round(s, pool, q, held, role, need, sel);
    if r.1 == Verdict::Next {
        let add = leading(ranked(s, sel, newcomers(s, pool, q, sel, role)), 1, false)[0];
        if sel.len() >= q.capacity {
            lemma_leaver(s, held, sel, role);
            let gone = leading(ranked(s, sel, leavers(s, held, sel, role)), 1, true);
            assert(!gone.contains(x)) by {
                if gone.contains(x) {
                    let j = choose|j: int| 0 <= j < gone.len() && gone[j] == x;
                    assert(j == 0);
                }
            }
            lemma_passing_kept(sel, without_test(gone), x);
            let base = without(sel, gone);
            let j = choose|j: int| 0 <= j < base.len() && base[j] == x;
            assert(base.push(add)[j] == x);
        } else {
            let j = choose|j: int| 0 <= j < sel.len() && sel[j] == x;
            assert(sel.push(add)[j] == x);
        }
    }
}

/// A member that is locked stays while a minimum is restored.
pub proof fn lemma_locked_survives(
    s: Setting,
    pool: Seq<i64>,
    q: Quota,
    held: Seq<i64>,
    role: Role,
    need: nat,
    rounds: nat,
    sel: Seq<i64>,
    x: i64,
)
    requires
        role == Role::Male || role == Role::Female,
        sel.contains(x),
        locked(s.rels, held, x),
    ensures
        reinforced(s, pool, q, held, role, need, rounds, sel).0.contains(x),
    decreases rounds,
{
    if rounds > 0 {
        let r = round(s, pool, q, held, role, need, sel);
        lemma_locked_survives_round(s, pool, q, held, role, need, sel, x);
        if r.1 == Verdict::Next {
            lemma_locked_survives(s, pool, q, held, role, need, (rounds - 1) as nat, r.0, x);
        }
    }
}

/// In a shift planned without a warning, whoever the greedy pass selected
/// stays together with each mandatory partner that is a candidate: if `p`
/// was selected by the greedy pass and `o` is bound to `p` and is in the
/// candidate pool, both are publishers of the shift.
#[verifier::rlimit(60)]
pub proof fn mandatory_closure(s: Setting, pool: Seq<i64>, q: Quota, p: i64, o: i64)
    requires
        planned(s, pool, q).warning is None,
        greedy(s, pool, q).contains(p),
        bound(s.rels, p, o),
        pool.contains(o),
    ensures
        planned(s, pool, q).publishers.contains(p),
        planned(s, pool, q).publishers.contains(o),
{
    let sel = greedy(s, pool, q);
    let held = held_of(s, pool, q);
    lemma_greedy_within(s, pool, q);
    lemma_admitted_within(pool, sel, wanted(s.rels, sel));
    assert(held.contains(p));
    lemma_partner_listed(s.rels, p, o);
    lemma_wanted_covers(s.rels, sel, p, o);
    lemma_admitted_covers(pool, sel, wanted(s.rels, sel), o);
    assert(held.contains(o));
    lemma_bound_both_ways(s.rels, p, o);
    let ko = choose|k: int| 0 <= k < held.len() && held[k] == o;
    let kp = choose|k: int| 0 <= k < held.len() && held[k] == p;
    assert(locked(s.rels, held, p)) by {
        assert(bound(s.rels, p, held[ko]));
    }
    assert(locked(s.rels, held, o)) by {
        assert(bound(s.rels, o, held[kp]));
    }
    lemma_plan_without_warning(s, pool, q);
    let c = managers_shed(s, pool, q);
    let d = sisters_restored(s, pool, q);
    lemma_locked_survives_shedding(s, q, held, p);
    lemma_locked_survives_shedding(s, q, held, o);
    lemma_locked_survives(
        s,
        pool,
        q,
        held,
        Role::Female,
        q.sisters as nat,
        q.sisters as nat,
        c.0,
        p,
    );
    lemma_locked_survives(
        s,
        pool,
        q,
        held,
        Role::Female,
        q.sisters as nat,
        q.sisters as nat,
        c.0,
        o,
    );
    lemma_locked_survives(
        s,
        pool,
        q,
        held,
        Role::Male,
        q.brothers as nat,
        q.brothers as nat,
        d.0,
        p,
    );
    lemma_locked_survives(
        s,
        pool,
        q,
        held,
        Role::Male,
        q.brothers as nat,
        q.brothers as nat,
        d.0,
        o,
    );
}

// ------------------------------------------------------ roles and genders

/// Whether no id occurs twice in the roster.
pub open spec fn unique_ids(roster: Seq<Member>) -> bool {
    forall|i: int, j: int|
        0 <= i < roster.len() && 0 <= j < roster.len() && i != j ==> roster[i].id != roster[j].id
}

/// Whether every candidate is recorded as a man or as a woman.
pub open spec fn gendered(roster: Seq<Member>, pool: Seq<i64>) -> bool {
    forall|x: i64|
        pool.contains(x) ==> in_role(roster, x, Role::Male) || in_role(roster, x, Role::Female)
}

/// With unique ids nobody is both a man and a woman, every manager is a
/// man, and no manager is a man who is no manager.
#[verifier::rlimit(60)]
pub proof fn lemma_groups_apart(roster: Seq<Member>, x: i64)
    requires
        unique_ids(roster),
    ensures
        !(in_role(roster, x, Role::Male) && in_role(roster, x, Role::Female)),
        in_role(roster, x, Role::Manager) ==> in_role(roster, x, Role::Male),
        in_role(roster, x, Role::PlainMale) ==> in_role(roster, x, Role::Male),
        !(in_role(roster, x, Role::Manager) && in_role(roster, x, Role::PlainMale)),
        !(in_role(roster, x, Role::Manager) && in_role(roster, x, Role::Female)),
{
    if in_role(roster, x, Role::Manager) {
        let k = choose|k: int|
            0 <= k < roster.len() && #[trigger] roster[k].id == x && roster[k].fits(Role::Manager);
        assert(roster[k].fits(Role::Male));
        if in_role(roster, x, Role::PlainMale) {
            let j = choose|j: int|
                0 <= j < roster.len() && #[trigger] roster[j].id == x && roster[j].fits(
                    Role::PlainMale,
                );
            assert(j == k);
        }
        if in_role(roster, x, Role::Female) {
            let j = choose|j: int|
                0 <= j < roster.len() && #[trigger] roster[j].id == x && roster[j].fits(
                    Role::Female,
                );
            assert(j == k);
        }
    }
    if in_role(roster, x, Role::PlainMale) {
        let k = choose|k: int|
            0 <= k < roster.len() && #[trigger] roster[k].id == x && roster[k].fits(
                Role::PlainMale,
            );
        assert(roster[k].fits(Role::Male));
    }
    if in_role(roster, x, Role::Male) && in_role(roster, x, Role::Female) {
        let k = choose|k: int|
            0 <= k < roster.len() && #[trigger] roster[k].id == x && roster[k].fits(Role::Male);
        let j = choose|j: int|
            0 <= j < roster.len() && #[trigger] roster[j].id == x && roster[j].fits(Role::Female);
        assert(j == k);
    }
}

/// Taking members out does not raise a headcount.
pub proof fn lemma_without_headcount(roster: Seq<Member>, sel: Seq<i64>, gone: Seq<i64>, role: Role)
    ensures
        headcount(roster, without(sel, gone), role) <= headcount(roster, sel, role),
{
    let c = role_test(roster, role);
    let wt = without_test(gone);
    lemma_headcount_is_count(roster, sel, role);
    lemma_headcount_is_count(roster, without(sel, gone), role);
    lemma_count_filtered(sel, wt, c);
    assert forall|x: i64| sel.contains(x) && both(wt, c)(x) implies c(x) by {}
    lemma_count_mono(sel, both(wt, c), c);
}

/// Taking out members of which none belongs to `role` leaves the headcount
/// of `role` as it is.
pub proof fn lemma_without_others(roster: Seq<Member>, sel: Seq<i64>, gone: Seq<i64>, role: Role)
    requires
        forall|x: i64| gone.contains(x) ==> !in_role(roster, x, role),
    ensures
        headcount(roster, without(sel, gone), role) == headcount(roster, sel, role),
{
    let c = role_test(roster, role);
    let wt = without_test(gone);
    lemma_headcount_is_count(roster, sel, role);
    lemma_headcount_is_count(roster, without(sel, gone), role);
    lemma_count_filtered(sel, wt, c);
    assert forall|x: i64| sel.contains(x) implies both(wt, c)(x) == c(x) by {}
    lemma_count_same(sel, both(wt, c), c);
}

/// Taking one member out of a selection without duplicates lowers a
/// headcount by one at most.
#[verifier::rlimit(60)]
pub proof fn lemma_without_one(roster: Seq<Member>, sel: Seq<i64>, gone: Seq<i64>, role: Role)
    requires
        sel.no_duplicates(),
        gone.len() == 1,
    ensures
        headcount(roster, without(sel, gone), role) + 1 >= headcount(roster, sel, role),
        without(sel, gone).len() + 1 >= sel.len(),
{
    let c = role_test(roster, role);
    let wt = without_test(gone);
    let g = gone[0];
    let is_g = |x: i64| x == g;
    lemma_headcount_is_count(roster, sel, role);
    lemma_headcount_is_count(roster, without(sel, gone), role);
    lemma_count_filtered(sel, wt, c);
    lemma_count_split(sel, c, wt);
    assert forall|x: i64| sel.contains(x) implies both(c, wt)(x) == both(wt, c)(x) by {}
    lemma_count_same(sel, both(c, wt), both(wt, c));
    assert forall|x: i64| sel.contains(x) && but_not(c, wt)(x) implies is_g(x) by {
        let j = choose|j: int| 0 <= j < gone.len() && gone[j] == x;
        assert(j == 0);
    }
    lemma_count_mono(sel, but_not(c, wt), is_g);
    lemma_count_single(sel, g);
    let all = |x: i64| true;
    lemma_count_is_filter_len(sel, wt);
    lemma_count_split(sel, all, wt);
    assert forall|x: i64| sel.contains(x) implies both(all, wt)(x) == wt(x) by {}
    lemma_count_same(sel, both(all, wt), wt);
    assert forall|x: i64| sel.contains(x) && but_not(all, wt)(x) implies is_g(x) by {
        let j = choose|j: int| 0 <= j < gone.len() && gone[j] == x;
        assert(j == 0);
    }
    lemma_count_mono(sel, but_not(all, wt), is_g);
    lemma_count_all(sel);
}

/// Every entry passes the test that passes all.
pub proof fn lemma_count_all(sel: Seq<i64>)
    ensures
        count(sel, |x: i64| true) == sel.len(),
    decreases sel.len(),
{
    if sel.len() > 0 {
        lemma_count_all(sel.drop_last());
    }
}

/// Where everybody is a man or a woman, and nobody both, the men and the
/// women of a selection are all of it.
pub proof fn lemma_gender_sum(roster: Seq<Member>, pool: Seq<i64>, sel: Seq<i64>)
    requires
        unique_ids(roster),
        gendered(roster, pool),
        all_in(sel, pool),
    ensures
        headcount(roster, sel, Role::Male) + headcount(roster, sel, Role::Female) == sel.len(),
    decreases sel.len(),
{
    if sel.len() > 0 {
        assert(all_in(sel.drop_last(), pool)) by {
            assert forall|x: i64| sel.drop_last().contains(x) implies pool.contains(x) by {
                let k = choose|k: int| 0 <= k < sel.drop_last().len() && sel.drop_last()[k] == x;
                assert(sel[k] == x);
            }
        }
        lemma_gender_sum(roster, pool, sel.drop_last());
        assert(sel[sel.len() - 1] == sel.last());
        assert(sel.contains(sel.last()));
        lemma_groups_apart(roster, sel.last());
    }
}

// ------------------------------------------------------- manager ceiling

/// Where surplus managers leave without a warning, no more managers stay
/// than asked for.
pub proof fn lemma_shed_ceiling(s: Setting, q: Quota, held: Seq<i64>, sel: Seq<i64>)
    requires
        shed(s, q, held, sel).1 is None,
    ensures
        headcount(s.roster, shed(s, q, held, sel).0, Role::Manager) <= q.managers,
{
    let have = headcount(s.roster, sel, Role::Manager);
    if have > q.managers {
        let free = removable(s.roster, s.rels, held, sel, Role::Manager);
        let k = (have - q.managers) as nat;
        let t = removable_test(s.roster, s.rels, held, Role::Manager);
        let c = role_test(s.roster, Role::Manager);
        lemma_ranked_ids(s, sel, free);
        lemma_leaving_lowers_count(sel, t, c, ranked(s, sel, free), k, true);
        lemma_headcount_is_count(s.roster, sel, Role::Manager);
        lemma_headcount_is_count(
            s.roster,
            without(sel, leading(ranked(s, sel, free), k, true)),
            Role::Manager,
        );
    }
}

/// Appending a member raises a headcount by one if the member belongs to
/// the group, and leaves it as it is if not.
pub proof fn lemma_push_headcount(roster: Seq<Member>, sel: Seq<i64>, x: i64, role: Role)
    ensures
        headcount(roster, sel.push(x), role) == headcount(roster, sel, role) + if in_role(
            roster,
            x,
            role,
        ) {
            1nat
        } else {
            0nat
        },
{
    assert(sel.push(x).drop_last() =~= sel);
}

/// A round of restoring the sisters does not raise the number of managers.
pub proof fn lemma_sister_round_managers(
    s: Setting,
    pool: Seq<i64>,
    q: Quota,
    held: Seq<i64>,
    need: nat,
    sel: Seq<i64>,
)
    requires
        unique_ids(s.roster),
    ensures
        headcount(s.roster, round(s, pool, q, held, Role::Female, need, sel).0, Role::Manager)
            <= headcount(s.roster, sel, Role::Manager),
{
    reveal(round);
    let r = round(s, pool, q, held, Role::Female, need, sel);
    if r.1 == Verdict::Next {
        lemma_newcomer(s, pool, q, sel, Role::Female);
        let add = leading(ranked(s, sel, newcomers(s, pool, q, sel, Role::Female)), 1, false)[0];
        lemma_groups_apart(s.roster, add);
        if sel.len() >= q.capacity {
            let gone = leading(ranked(s, sel, leavers(s, held, sel, Role::Female)), 1, true);
            lemma_without_headcount(s.roster, sel, gone, Role::Manager);
            lemma_push_headcount(s.roster, without(sel, gone), add, Role::Manager);
        } else {
            lemma_push_headcount(s.roster, sel, add, Role::Manager);
        }
    }
}

/// Restoring the sisters does not raise the number of managers.
pub proof fn lemma_sisters_keep_managers(
    s: Setting,
    pool: Seq<i64>,
    q: Quota,
    held: Seq<i64>,
    need: nat,
    rounds: nat,
    sel: Seq<i64>,
)
    requires
        unique_ids(s.roster),
    ensures
        headcount(
            s.roster,
            reinforced(s, pool, q, held, Role::Female, need, rounds, sel).0,
            Role::Manager,
        ) <= headcount(s.roster, sel, Role::Manager),
    decreases rounds,
{
    if rounds > 0 {
        let r = round(s, pool, q, held, Role::Female, need, sel);
        lemma_sister_round_managers(s, pool, q, held, need, sel);
        if r.1 == Verdict::Next {
            lemma_sisters_keep_managers(s, pool, q, held, need, (rounds - 1) as nat, r.0);
        } else {
            reveal(round);
        }
    }
}

/// Whether no manager beyond the number asked for comes back while the
/// brothers are restored from `sel` in `rounds` rounds: in each round that
/// adds a man, fewer managers than asked for are selected, or a man who is
/// no manager is left to add.
pub open spec fn no_manager_returns(
    s: Setting,
    pool: Seq<i64>,
    q: Quota,
    held: Seq<i64>,
    need: nat,
    rounds: nat,
    sel: Seq<i64>,
) -> bool
    decreases rounds,
{
    if rounds == 0 {
        true
    } else {
        let r = round(s, pool, q, held, Role::Male, need, sel);
        r.1 == Verdict::Next ==> (headcount(s.roster, sel, Role::Manager) < q.managers || eligible(
            s.roster,
            pool,
            sel,
            Role::PlainMale,
        ).len() > 0) && no_manager_returns(s, pool, q, held, need, (rounds - 1) as nat, r.0)
    }
}

/// A round of restoring the brothers keeps the managers within the number
/// asked for, where fewer are selected or a man who is no manager is left
/// to add.
#[verifier::rlimit(60)]
pub proof fn lemma_brother_round_managers(
    s: Setting,
    pool: Seq<i64>,
    q: Quota,
    held: Seq<i64>,
    need: nat,
    sel: Seq<i64>,
)
    requires
        unique_ids(s.roster),
        headcount(s.roster, sel, Role::Manager) <= q.managers,
        round(s, pool, q, held, Role::Male, need, sel).1 == Verdict::Next,
        headcount(s.roster, sel, Role::Manager) < q.managers || eligible(
            s.roster,
            pool,
            sel,
            Role::PlainMale,
        ).len() > 0,
    ensures
        headcount(s.roster, round(s, pool, q, held, Role::Male, need, sel).0, Role::Manager)
            <= q.managers,
{
    reveal(round);
    lemma_newcomer(s, pool, q, sel, Role::Male);
    let add = leading(ranked(s, sel, newcomers(s, pool, q, sel, Role::Male)), 1, false)[0];
    lemma_groups_apart(s.roster, add);
    if sel.len() >= q.capacity {
        let gone = leading(ranked(s, sel, leavers(s, held, sel, Role::Male)), 1, true);
        lemma_without_headcount(s.roster, sel, gone, Role::Manager);
        lemma_push_headcount(s.roster, without(sel, gone), add, Role::Manager);
    } else {
        lemma_push_headcount(s.roster, sel, add, Role::Manager);
    }
}

/// Restoring the brothers keeps the managers within the number asked for,
/// where no manager beyond that number comes back.
pub proof fn lemma_brothers_keep_ceiling(
    s: Setting,
    pool: Seq<i64>,
    q: Quota,
    held: Seq<i64>,
    need: nat,
    rounds: nat,
    sel: Seq<i64>,
)
    requires
        unique_ids(s.roster),
        headcount(s.roster, sel, Role::Manager) <= q.managers,
        no_manager_returns(s, pool, q, held, need, rounds, sel),
    ensures
        headcount(
            s.roster,
            reinforced(s, pool, q, held, Role::Male, need, rounds, sel).0,
            Role::Manager,
        ) <= q.managers,
    decreases rounds,
{
    if rounds > 0 {
        let r = round(s, pool, q, held, Role::Male, need, sel);
        if r.1 == Verdict::Next {
            lemma_brother_round_managers(s, pool, q, held, need, sel);
            lemma_brothers_keep_ceiling(s, pool, q, held, need, (rounds - 1) as nat, r.0);
        } else {
            reveal(round);
        }
    }
}

/// In a shift planned without a warning there are no more managers than
/// asked for, unless a manager beyond that number came back while the
/// brothers were restored: that happens where a brother is missing, as many
/// managers as asked for are selected, and only managers are left to add.
pub proof fn manager_ceiling(s: Setting, pool: Seq<i64>, q: Quota)
    requires
        unique_ids(s.roster),
        planned(s, pool, q).warning is None,
        no_manager_returns(
            s,
            pool,
            q,
            held_of(s, pool, q),
            q.brothers as nat,
            q.brothers as nat,
            sisters_restored(s, pool, q).0,
        ),
    ensures
        headcount(s.roster, planned(s, pool, q).publishers, Role::Manager) <= q.managers,
{
    lemma_plan_without_warning(s, pool, q);
    let held = held_of(s, pool, q);
    let c = managers_shed(s, pool, q);
    let d = sisters_restored(s, pool, q);
    lemma_shed_ceiling(s, q, held, held);
    lemma_sisters_keep_managers(s, pool, q, held, q.sisters as nat, q.sisters as nat, c.0);
    lemma_brothers_keep_ceiling(s, pool, q, held, q.brothers as nat, q.brothers as nat, d.0);
}

/// Where a manager comes back beyond the number asked for, more managers
/// than asked for are selected in the end.
pub proof fn lemma_manager_returned(
    s: Setting,
    pool: Seq<i64>,
    q: Quota,
    held: Seq<i64>,
    need: nat,
    rounds: nat,
    sel: Seq<i64>,
)
    requires
        unique_ids(s.roster),
        !no_manager_returns(s, pool, q, held, need, rounds, sel),
    ensures
        headcount(
            s.roster,
            reinforced(s, pool, q, held, Role::Male, need, rounds, sel).0,
            Role::Manager,
        ) > q.managers,
    decreases rounds,
{
    if rounds > 0 {
        let r = round(s, pool, q, held, Role::Male, need, sel);
        if r.1 == Verdict::Next {
            lemma_brother_round_not_fewer(s, pool, q, held, need, sel);
            lemma_reinforced_not_fewer(s, pool, q, held, need, (rounds - 1) as nat, r.0);
            if headcount(s.roster, sel, Role::Manager) < q.managers || eligible(
                s.roster,
                pool,
                sel,
                Role::PlainMale,
            ).len() > 0 {
                lemma_manager_returned(s, pool, q, held, need, (rounds - 1) as nat, r.0);
            }
        }
    }
}

/// A round of restoring the brothers takes no manager out, and adds one
/// where only managers are left to add.
#[verifier::rlimit(60)]
pub proof fn lemma_brother_round_not_fewer(
    s: Setting,
    pool: Seq<i64>,
    q: Quota,
    held: Seq<i64>,
    need: nat,
    sel: Seq<i64>,
)
    requires
        unique_ids(s.roster),
        round(s, pool, q, held, Role::Male, need, sel).1 == Verdict::Next,
    ensures
        headcount(s.roster, round(s, pool, q, held, Role::Male, need, sel).0, Role::Manager)
            >= headcount(s.roster, sel, Role::Manager),
        eligible(s.roster, pool, sel, Role::PlainMale).len() == 0 ==> headcount(
            s.roster,
            round(s, pool, q, held, Role::Male, need, sel).0,
            Role::Manager,
        ) == headcount(s.roster, sel, Role::Manager) + 1,
{
    reveal(round);
    lemma_newcomer(s, pool, q, sel, Role::Male);
    let add = leading(ranked(s, sel, newcomers(s, pool, q, sel, Role::Male)), 1, false)[0];
    lemma_groups_apart(s.roster, add);
    if eligible(s.roster, pool, sel, Role::PlainMale).len() == 0 {
        // A man who is eligible, while no man who is no manager is, is a manager.
        if !in_role(s.roster, add, Role::Manager) {
            let k = choose|k: int|
                0 <= k < s.roster.len() && #[trigger] s.roster[k].id == add && s.roster[k].fits(
                    Role::Male,
                );
            assert(s.roster[k].fits(Role::PlainMale) || s.roster[k].fits(Role::Manager));
            assert(in_role(s.roster, add, Role::PlainMale));
            lemma_passing_kept(pool, eligible_test(s.roster, sel, Role::PlainMale), add);
        }
    }
    if sel.len() >= q.capacity {
        lemma_leaver(s, held, sel, Role::Male);
        let gone = leading(ranked(s, sel, leavers(s, held, sel, Role::Male)), 1, true);
        assert forall|x: i64| gone.contains(x) implies !in_role(s.roster, x, Role::Manager) by {
            let j = choose|j: int| 0 <= j < gone.len() && gone[j] == x;
            assert(j == 0);
            lemma_groups_apart(s.roster, x);
        }
        lemma_without_others(s.roster, sel, gone, Role::Manager);
        lemma_push_headcount(s.roster, without(sel, gone), add, Role::Manager);
    } else {
        lemma_push_headcount(s.roster, sel, add, Role::Manager);
    }
}

/// Restoring the brothers takes no manager out.
pub proof fn lemma_reinforced_not_fewer(
    s: Setting,
    pool: Seq<i64>,
    q: Quota,
    held: Seq<i64>,
    need: nat,
    rounds: nat,
    sel: Seq<i64>,
)
    requires
        unique_ids(s.roster),
    ensures
        headcount(
            s.roster,
            reinforced(s, pool, q, held, Role::Male, need, rounds, sel).0,
            Role::Manager,
        ) >= headcount(s.roster, sel, Role::Manager),
    decreases rounds,
{
    if rounds > 0 {
        let r = round(s, pool, q, held, Role::Male, need, sel);
        if r.1 == Verdict::Next {
            lemma_brother_round_not_fewer(s, pool, q, held, need, sel);
            lemma_reinforced_not_fewer(s, pool, q, held, need, (rounds - 1) as nat, r.0);
        } else {
            reveal(round);
        }
    }
}

/// In a shift planned without a warning in which a manager beyond the
/// number asked for came back, there are more managers than asked for: the
/// condition of `manager_ceiling` leaves out no shift that keeps the
/// ceiling.
pub proof fn returning_manager_breaks_ceiling(s: Setting, pool: Seq<i64>, q: Quota)
    requires
        unique_ids(s.roster),
        planned(s, pool, q).warning is None,
        !no_manager_returns(
            s,
            pool,
            q,
            held_of(s, pool, q),
            q.brothers as nat,
            q.brothers as nat,
            sisters_restored(s, pool, q).0,
        ),
    ensures
        headcount(s.roster, planned(s, pool, q).publishers, Role::Manager) > q.managers,
{
    lemma_plan_without_warning(s, pool, q);
    lemma_manager_returned(
        s,
        pool,
        q,
        held_of(s, pool, q),
        q.brothers as nat,
        q.brothers as nat,
        sisters_restored(s, pool, q).0,
    );
}

// --------------------------------------------------------- gender minima

/// A round that adds a member raises the headcount of the group by one at
/// least.
pub proof fn lemma_round_raises(
    s: Setting,
    pool: Seq<i64>,
    q: Quota,
    held: Seq<i64>,
    role: Role,
    need: nat,
    sel: Seq<i64>,
)
    requires
        unique_ids(s.roster),
        role == Role::Male || role == Role::Female,
        round(s, pool, q, held, role, need, sel).1 == Verdict::Next,
    ensures
        headcount(s.roster, round(s, pool, q, held, role, need, sel).0, role) >= headcount(
            s.roster,
            sel,
            role,
        ) + 1,
{
    reveal(round);
    lemma_newcomer(s, pool, q, sel, role);
    let add = leading(ranked(s, sel, newcomers(s, pool, q, sel, role)), 1, false)[0];
    if sel.len() >= q.capacity {
        lemma_leaver(s, held, sel, role);
        let gone = leading(ranked(s, sel, leavers(s, held, sel, role)), 1, true);
        assert forall|x: i64| gone.contains(x) implies !in_role(s.roster, x, role) by {
            let j = choose|j: int| 0 <= j < gone.len() && gone[j] == x;
            assert(j == 0);
            lemma_groups_apart(s.roster, x);
        }
        lemma_without_others(s.roster, sel, gone, role);
        lemma_push_headcount(s.roster, without(sel, gone), add, role);
    } else {
        lemma_push_headcount(s.roster, sel, add, role);
    }
}

/// Where a minimum is restored without a warning, it is met, or each round
/// has added a member.
pub proof fn lemma_reinforced_reaches(
    s: Setting,
    pool: Seq<i64>,
    q: Quota,
    held: Seq<i64>,
    role: Role,
    need: nat,
    rounds: nat,
    sel: Seq<i64>,
)
    requires
        unique_ids(s.roster),
        role == Role::Male || role == Role::Female,
        reinforced(s, pool, q, held, role, need, rounds, sel).1 is None,
    ensures
        headcount(s.roster, reinforced(s, pool, q, held, role, need, rounds, sel).0, role) >= need
            || headcount(s.roster, reinforced(s, pool, q, held, role, need, rounds, sel).0, role)
            >= headcount(s.roster, sel, role) + rounds,
    decreases rounds,
{
    if rounds > 0 {
        let r = round(s, pool, q, held, role, need, sel);
        if r.1 == Verdict::Next {
            lemma_round_raises(s, pool, q, held, role, need, sel);
            lemma_reinforced_reaches(s, pool, q, held, role, need, (rounds - 1) as nat, r.0);
        } else {
            reveal(round);
        }
    }
}

/// A round of restoring the brothers leaves as many sisters as asked for.
#[verifier::rlimit(60)]
pub proof fn lemma_brother_round_sisters(
    s: Setting,
    pool: Seq<i64>,
    q: Quota,
    held: Seq<i64>,
    need: nat,
    sel: Seq<i64>,
)
    requires
        unique_ids(s.roster),
        gendered(s.roster, pool),
        all_in(sel, pool),
        sel.no_duplicates(),
        need == q.brothers,
        q.brothers + q.sisters <= q.capacity,
        headcount(s.roster, sel, Role::Female) >= q.sisters,
    ensures
        headcount(s.roster, round(s, pool, q, held, Role::Male, need, sel).0, Role::Female)
            >= q.sisters,
{
    reveal(round);
    let r = round(s, pool, q, held, Role::Male, need, sel);
    if r.1 == Verdict::Next {
        lemma_newcomer(s, pool, q, sel, Role::Male);
        let add = leading(ranked(s, sel, newcomers(s, pool, q, sel, Role::Male)), 1, false)[0];
        lemma_groups_apart(s.roster, add);
        if sel.len() >= q.capacity {
            lemma_leaver(s, held, sel, Role::Male);
            let gone = leading(ranked(s, sel, leavers(s, held, sel, Role::Male)), 1, true);
            lemma_gender_sum(s.roster, pool, sel);
            lemma_without_one(s.roster, sel, gone, Role::Female);
            lemma_push_headcount(s.roster, without(sel, gone), add, Role::Female);
        } else {
            lemma_push_headcount(s.roster, sel, add, Role::Female);
        }
    }
}

/// Restoring the brothers leaves as many sisters as asked for.
pub proof fn lemma_brothers_keep_sisters(
    s: Setting,
    pool: Seq<i64>,
    q: Quota,
    held: Seq<i64>,
    need: nat,
    rounds: nat,
    sel: Seq<i64>,
)
    requires
        unique_ids(s.roster),
        gendered(s.roster, pool),
        all_in(sel, pool),
        sel.no_duplicates(),
        need == q.brothers,
        q.brothers + q.sisters <= q.capacity,
        headcount(s.roster, sel, Role::Female) >= q.sisters,
    ensures
        headcount(
            s.roster,
            reinforced(s, pool, q, held, Role::Male, need, rounds, sel).0,
            Role::Female,
        ) >= q.sisters,
    decreases rounds,
{
    if rounds > 0 {
        let r = round(s, pool, q, held, Role::Male, need, sel);
        lemma_brother_round_sisters(s, pool, q, held, need, sel);
        if r.1 == Verdict::Next {
            lemma_round_within(s, pool, q, held, Role::Male, need, sel);
            lemma_round_no_duplicates(s, pool, q, held, Role::Male, need, sel);
            lemma_brothers_keep_sisters(s, pool, q, held, need, (rounds - 1) as nat, r.0);
        } else {
            reveal(round);
        }
    }
}

/// In a shift planned without a warning there are at least as many men as
/// brothers asked for and at least as many women as sisters asked for,
/// where the candidates are different people, each recorded as a man or as
/// a woman, and the schedule asks for no more brothers and sisters than it
/// has places.
#[verifier::rlimit(60)]
pub proof fn gender_minima(s: Setting, pool: Seq<i64>, q: Quota)
    requires
        unique_ids(s.roster),
        pool.no_duplicates(),
        gendered(s.roster, pool),
        q.brothers + q.sisters <= q.capacity,
        planned(s, pool, q).warning is None,
    ensures
        headcount(s.roster, planned(s, pool, q).publishers, Role::Male) >= q.brothers,
        headcount(s.roster, planned(s, pool, q).publishers, Role::Female) >= q.sisters,
{
    lemma_plan_without_warning(s, pool, q);
    lemma_stages_sound(s, pool, q);
    let held = held_of(s, pool, q);
    let c = managers_shed(s, pool, q);
    let d = sisters_restored(s, pool, q);
    lemma_reinforced_reaches(
        s,
        pool,
        q,
        held,
        Role::Female,
        q.sisters as nat,
        q.sisters as nat,
        c.0,
    );
    lemma_reinforced_reaches(
        s,
        pool,
        q,
        held,
        Role::Male,
        q.brothers as nat,
        q.brothers as nat,
        d.0,
    );
    lemma_brothers_keep_sisters(s, pool, q, held, q.brothers as nat, q.brothers as nat, d.0);
}

} // verus!
