//! The greedy pass: managers, then brothers, then sisters, then whoever
//! ranks best for the places that are left.

use vstd::prelude::*;
use crate::fairness::has_id;
use crate::ranking::{leading, take_leading};
use crate::roster::{count_role, headcount, in_role, member_in_role, Member, Quota, Role};
use crate::scoring::{ranked, Context, Setting};

verus! {

/// The test that `eligible` keeps a candidate by.
pub open spec fn eligible_test(roster: Seq<Member>, sel: Seq<i64>, role: Role) -> spec_fn(
    i64,
) -> bool {
    |x: i64| in_role(roster, x, role) && !sel.contains(x)
}

/// The candidates of `pool` that belong to `role` and are not in `sel`, in
/// the order of the pool.
pub open spec fn eligible(roster: Seq<Member>, pool: Seq<i64>, sel: Seq<i64>, role: Role) -> Seq<
    i64,
> {
    pool.filter(eligible_test(roster, sel, role))
}

/// The selection `sel` followed by the best `k` candidates of `role` that it
/// does not hold yet, ranked by their scores beside `sel`.
pub open spec fn drawn(s: Setting, pool: Seq<i64>, sel: Seq<i64>, role: Role, k: nat) -> Seq<i64> {
    sel + leading(ranked(s, sel, eligible(s.roster, pool, sel, role)), k, false)
}

/// `a - b`, or 0 where that would be negative.
pub open spec fn shortfall(a: nat, b: nat) -> nat {
    if a > b {
        (a - b) as nat
    } else {
        0
    }
}

/// The selection after the manager phase.
pub open spec fn after_managers(s: Setting, pool: Seq<i64>, q: Quota) -> Seq<i64> {
    drawn(s, pool, Seq::empty(), Role::Manager, q.managers as nat)
}

/// The selection after the brother phase: men are added until `q.brothers`
/// are selected, the managers counted.
pub open spec fn after_brothers(s: Setting, pool: Seq<i64>, q: Quota) -> Seq<i64> {
    let sel = after_managers(s, pool, q);
    drawn(
        s,
        pool,
        sel,
        Role::Male,
        shortfall(q.brothers as nat, headcount(s.roster, sel, Role::Male)),
    )
}

/// The selection after the sister phase.
pub open spec fn after_sisters(s: Setting, pool: Seq<i64>, q: Quota) -> Seq<i64> {
    drawn(s, pool, after_brothers(s, pool, q), Role::Female, q.sisters as nat)
}

/// The selection of the greedy pass: after the sister phase the places that
/// are left go to the best of all remaining candidates.
pub open spec fn greedy(s: Setting, pool: Seq<i64>, q: Quota) -> Seq<i64> {
    let sel = after_sisters(s, pool, q);
    drawn(s, pool, sel, Role::Anyone, shortfall(q.capacity as nat, sel.len()))
}

/// The candidates of `pool` that belong to `role` and are not in `sel`.
pub fn eligible_of(roster: &Vec<Member>, pool: &Vec<i64>, sel: &Vec<i64>, role: Role) -> (out: Vec<
    i64,
>)
    ensures
        out@ == eligible(roster@, pool@, sel@, role),
{
    let mut out: Vec<i64> = Vec::new();
    let mut i: usize = 0;
    proof {
        reveal(Seq::filter);
        assert(pool@.take(0) =~= Seq::<i64>::empty());
    }
    while i < pool.len()
        invariant
            i <= pool.len(),
            out@ == eligible(roster@, pool@.take(i as int), sel@, role),
        decreases pool.len() - i,
    {
        let x = pool[i];
        proof {
            assert(pool@.take(i as int + 1) =~= pool@.take(i as int).push(x));
            pool@.take(i as int).lemma_filter_push(x, eligible_test(roster@, sel@, role));
        }
        if member_in_role(roster, x, role) && !has_id(sel, x) {
            out.push(x);
        }
        i += 1;
    }
    assert(pool@.take(pool.len() as int) =~= pool@);
    out
}

/// Adds to `sel` the best `k` candidates of `role` that it does not hold
/// yet.
pub fn draw(ctx: &Context, pool: &Vec<i64>, sel: Vec<i64>, role: Role, k: usize) -> (out: Vec<i64>)
    ensures
        out@ == drawn(ctx@, pool@, sel@, role, k as nat),
{
    let cands = eligible_of(ctx.roster, pool, &sel, role);
    let entries = ctx.score_all(&sel, &cands);
    let picked = take_leading(entries, k, false);
    let mut out = sel;
    let ghost start = out@;
    let mut i: usize = 0;
    while i < picked.len()
        invariant
            i <= picked.len(),
            out@ == start + picked@.take(i as int),
        decreases picked.len() - i,
    {
        out.push(picked[i]);
        assert(start + picked@.take(i as int + 1) =~= (start + picked@.take(i as int)).push(
            picked@[i as int],
        ));
        i += 1;
    }
    assert(picked@.take(picked.len() as int) =~= picked@);
    out
}

/// The greedy pass over the candidates `pool` for a shift with quota `q`.
pub fn select_greedy(ctx: &Context, pool: &Vec<i64>, q: &Quota) -> (sel: Vec<i64>)
    ensures
        sel@ == greedy(ctx@, pool@, *q),
{
    let sel = draw(ctx, pool, Vec::new(), Role::Manager, q.managers);
    let men = count_role(ctx.roster, &sel, Role::Male);
    let more = if q.brothers > men {
        q.brothers - men
    } else {
        0
    };
    let sel = draw(ctx, pool, sel, Role::Male, more);
    let sel = draw(ctx, pool, sel, Role::Female, q.sisters);
    let free = if q.capacity > sel.len() {
        q.capacity - sel.len()
    } else {
        0
    };
    draw(ctx, pool, sel, Role::Anyone, free)
}

} // verus!
