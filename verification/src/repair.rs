//! The repair of a greedy selection: mandatory partners are brought in,
//! surplus managers leave, the minima of sisters and brothers are restored,
//! and the selection is cut to the capacity of the shift.

use std::collections::HashSet;
use vstd::prelude::*;
use crate::fairness::has_id;
use crate::ranking::{leading, lemma_leading_len, take_leading};
use crate::roster::{
    are_bound, bound, count_role, headcount, in_role, member_in_role, Member, Quota, Relation,
    RelationshipKind, Role,
};
use crate::scoring::{ranked, Context, Setting};
use crate::selection::{eligible, eligible_of, greedy, select_greedy};

verus! {

/// Why a shift could not be planned as its schedule asks.
#[derive(Clone, Copy, Debug, PartialEq, Eq, Structural)]
pub enum Warning {
    /// More managers than asked for stay, held by mandatory pairs.
    ManagersLocked,
    /// Fewer sisters are available than required.
    FewerSisters,
    /// No place could be freed for a required sister.
    NoRoomForSister,
    /// Fewer brothers are available than required.
    FewerBrothers,
    /// No place could be freed for a required brother.
    NoRoomForBrother,
    /// Selections were dropped for capacity, mandatory pairs among them.
    CapacityCompromise,
    /// Selections outside mandatory pairs were dropped for capacity.
    Trimmed,
    /// Fewer publishers are assigned than the shift has places.
    NotEnough,
}

/// A planned shift as mathematics sees it.
pub struct Outline {
    pub publishers: Seq<i64>,
    pub warning: Option<Warning>,
}

/// A planned shift: who is assigned, in order, and the one warning if any.
#[derive(Clone, Debug, PartialEq)]
pub struct Plan {
    pub publishers: Vec<i64>,
    pub warning: Option<Warning>,
}

impl View for Plan {
    type V = Outline;

    open spec fn view(&self) -> Outline {
        Outline { publishers: self.publishers@, warning: self.warning }
    }
}

impl Warning {
    /// Whether the warning tells of a loss for capacity that may have split
    /// a mandatory pair. Such a warning replaces any other.
    pub open spec fn severe(self) -> bool {
        self == Warning::CapacityCompromise
    }

    /// The sentence that is stored with the shift.
    pub open spec fn text(self) -> Seq<char> {
        match self {
            Warning::ManagersLocked => "could not reduce extra managers due to mandatory pairs"@,
            Warning::FewerSisters => "fewer sisters available than required"@,
            Warning::NoRoomForSister => "cannot free slot to add required sister"@,
            Warning::FewerBrothers => "fewer brothers available than required"@,
            Warning::NoRoomForBrother => "cannot free slot to add required brother"@,
            Warning::CapacityCompromise =>
                "had to drop some selections due to capacity; mandatory pairs may be affected"@,
            Warning::Trimmed => "trimmed extra selections to fit capacity"@,
            Warning::NotEnough => "not enough available publishers"@,
        }
    }

    /// The sentence that is stored with the shift.
    pub fn message(&self) -> (r: &'static str)
        ensures
            r@ == self.text(),
    {
        match self {
            Warning::ManagersLocked => "could not reduce extra managers due to mandatory pairs",
            Warning::FewerSisters => "fewer sisters available than required",
            Warning::NoRoomForSister => "cannot free slot to add required sister",
            Warning::FewerBrothers => "fewer brothers available than required",
            Warning::NoRoomForBrother => "cannot free slot to add required brother",
            Warning::CapacityCompromise =>
                "had to drop some selections due to capacity; mandatory pairs may be affected",
            Warning::Trimmed => "trimmed extra selections to fit capacity",
            Warning::NotEnough => "not enough available publishers",
        }
    }
}

/// The warning that stands once `new` is recorded after `current`: the
/// first one stays, unless the new one is severe and the first is not.
pub open spec fn noted(current: Option<Warning>, new: Warning) -> Option<Warning> {
    match current {
        None => Some(new),
        Some(w) => if new.severe() && !w.severe() {
            Some(new)
        } else {
            Some(w)
        },
    }
}

/// `noted`, where there may be nothing new to record.
pub open spec fn noted_if(current: Option<Warning>, new: Option<Warning>) -> Option<Warning> {
    match new {
        None => current,
        Some(w) => noted(current, w),
    }
}

/// The partner that the relation `r` demands beside `p`, if it is mandatory
/// and `p` is one of its two ends.
pub open spec fn partner_in(r: Relation, p: i64) -> Option<i64> {
    if r.kind == RelationshipKind::Mandatory {
        if r.a == p {
            Some(r.b)
        } else if r.b == p {
            Some(r.a)
        } else {
            None
        }
    } else {
        None
    }
}

/// The mandatory partners of `p`, in the order of the relations.
pub open spec fn partners_of(rels: Seq<Relation>, p: i64) -> Seq<i64>
    decreases rels.len(),
{
    if rels.len() == 0 {
        Seq::empty()
    } else {
        let front = partners_of(rels.drop_last(), p);
        match partner_in(rels.last(), p) {
            Some(o) => front.push(o),
            None => front,
        }
    }
}

/// The mandatory partners of the members of `sel`, member by member.
pub open spec fn wanted(rels: Seq<Relation>, sel: Seq<i64>) -> Seq<i64>
    decreases sel.len(),
{
    if sel.len() == 0 {
        Seq::empty()
    } else {
        wanted(rels, sel.drop_last()) + partners_of(rels, sel.last())
    }
}

/// `sel` with those of `extra` appended, one after the other, that are
/// candidates and not yet selected.
pub open spec fn admitted(pool: Seq<i64>, sel: Seq<i64>, extra: Seq<i64>) -> Seq<i64>
    decreases extra.len(),
{
    if extra.len() == 0 {
        sel
    } else {
        let cur = admitted(pool, sel, extra.drop_last());
        let o = extra.last();
        if !cur.contains(o) && pool.contains(o) {
            cur.push(o)
        } else {
            cur
        }
    }
}

/// `sel` together with the eligible mandatory partners of its members.
pub open spec fn with_partners(rels: Seq<Relation>, pool: Seq<i64>, sel: Seq<i64>) -> Seq<i64> {
    admitted(pool, sel, wanted(rels, sel))
}

/// Whether `x` is held in `held` by a mandatory pair: `x` and one of its
/// mandatory partners are both in `held`.
pub open spec fn locked(rels: Seq<Relation>, held: Seq<i64>, x: i64) -> bool {
    held.contains(x) && exists|k: int| 0 <= k < held.len() && bound(rels, x, #[trigger] held[k])
}

/// The test that `removable` keeps a member by.
pub open spec fn removable_test(
    roster: Seq<Member>,
    rels: Seq<Relation>,
    held: Seq<i64>,
    role: Role,
) -> spec_fn(i64) -> bool {
    |x: i64| in_role(roster, x, role) && !locked(rels, held, x)
}

/// The members of `sel` that belong to `role` and are not locked in `held`.
pub open spec fn removable(
    roster: Seq<Member>,
    rels: Seq<Relation>,
    held: Seq<i64>,
    sel: Seq<i64>,
    role: Role,
) -> Seq<i64> {
    sel.filter(removable_test(roster, rels, held, role))
}

/// The test that `without` keeps a member by.
pub open spec fn without_test(gone: Seq<i64>) -> spec_fn(i64) -> bool {
    |x: i64| !gone.contains(x)
}

/// `sel` without the members listed in `gone`.
pub open spec fn without(sel: Seq<i64>, gone: Seq<i64>) -> Seq<i64> {
    sel.filter(without_test(gone))
}

/// The selection after surplus managers have left, and the warning if some
/// had to stay. Managers beyond `q.managers` leave from the lowest rank
/// upwards, but none that is locked in `held`.
pub open spec fn shed(s: Setting, q: Quota, held: Seq<i64>, sel: Seq<i64>) -> (Seq<i64>, Option<
    Warning,
>) {
    let have = headcount(s.roster, sel, Role::Manager);
    if have > q.managers {
        let free = removable(s.roster, s.rels, held, sel, Role::Manager);
        let gone = leading(ranked(s, sel, free), (have - q.managers) as nat, true);
        (
            without(sel, gone),
            if free.len() < have - q.managers {
                Some(Warning::ManagersLocked)
            } else {
                None
            },
        )
    } else {
        (sel, None)
    }
}

/// The candidates that may be added to restore the minimum of `role`. For
/// men, once the managers asked for are selected, those who are no managers
/// come first if there are any.
pub open spec fn newcomers(s: Setting, pool: Seq<i64>, q: Quota, sel: Seq<i64>, role: Role) -> Seq<
    i64,
> {
    if role == Role::Male && headcount(s.roster, sel, Role::Manager) >= q.managers && eligible(
        s.roster,
        pool,
        sel,
        Role::PlainMale,
    ).len() > 0 {
        eligible(s.roster, pool, sel, Role::PlainMale)
    } else {
        eligible(s.roster, pool, sel, role)
    }
}

/// The members that may give up their place for a newcomer of `role`: for a
/// sister, men outside mandatory pairs, those who are no managers first if
/// there are any; for a brother, women outside mandatory pairs.
pub open spec fn leavers(s: Setting, held: Seq<i64>, sel: Seq<i64>, role: Role) -> Seq<i64> {
    if role == Role::Female {
        let plain = removable(s.roster, s.rels, held, sel, Role::PlainMale);
        if plain.len() > 0 {
            plain
        } else {
            removable(s.roster, s.rels, held, sel, Role::Male)
        }
    } else {
        removable(s.roster, s.rels, held, sel, Role::Female)
    }
}

/// The warning for want of candidates of `role`.
pub open spec fn shortage(role: Role) -> Warning {
    if role == Role::Female {
        Warning::FewerSisters
    } else {
        Warning::FewerBrothers
    }
}

/// The warning for want of a place for a candidate of `role`.
pub open spec fn no_room(role: Role) -> Warning {
    if role == Role::Female {
        Warning::NoRoomForSister
    } else {
        Warning::NoRoomForBrother
    }
}

/// How one round of restoring a minimum ends.
#[derive(Clone, Copy, Debug, PartialEq, Eq, Structural)]
pub enum Verdict {
    /// The minimum is met; nothing changed.
    Enough,
    /// Nothing could be done; nothing changed.
    Halt(Warning),
    /// One member was added, after another had left where the shift was full.
    Next,
}

/// One round of restoring the minimum `need` of `role`: the best newcomer is
/// added; where the shift is full, the lowest-ranked leaver goes first.
#[verifier::opaque]
pub open spec fn round(
    s: Setting,
    pool: Seq<i64>,
    q: Quota,
    held: Seq<i64>,
    role: Role,
    need: nat,
    sel: Seq<i64>,
) -> (Seq<i64>, Verdict) {
    if headcount(s.roster, sel, role) >= need {
        (sel, Verdict::Enough)
    } else {
        let cands = newcomers(s, pool, q, sel, role);
        if cands.len() == 0 {
            (sel, Verdict::Halt(shortage(role)))
        } else {
            let add = leading(ranked(s, sel, cands), 1, false)[0];
            if sel.len() >= q.capacity {
                let out = leavers(s, held, sel, role);
                if out.len() == 0 {
                    (sel, Verdict::Halt(no_room(role)))
                } else {
                    let gone = leading(ranked(s, sel, out), 1, true);
                    (without(sel, gone).push(add), Verdict::Next)
                }
            } else {
                (sel.push(add), Verdict::Next)
            }
        }
    }
}

/// The selection after the minimum `need` of `role` has been restored as
/// far as possible in at most `rounds` rounds, and the warning if it could
/// not be.
pub open spec fn reinforced(
    s: Setting,
    pool: Seq<i64>,
    q: Quota,
    held: Seq<i64>,
    role: Role,
    need: nat,
    rounds: nat,
    sel: Seq<i64>,
) -> (Seq<i64>, Option<Warning>)
    decreases rounds,
{
    if rounds == 0 {
        (sel, None)
    } else {
        let r = round(s, pool, q, held, role, need, sel);
        match r.1 {
            Verdict::Enough => (r.0, None),
            Verdict::Halt(w) => (r.0, Some(w)),
            Verdict::Next => reinforced(s, pool, q, held, role, need, (rounds - 1) as nat, r.0),
        }
    }
}

/// The selection cut to the capacity of the shift, with the warning that
/// results. Members outside mandatory pairs leave first, from the lowest
/// rank upwards; if that is not enough, the lowest-ranked of all leave.
pub open spec fn trimmed(s: Setting, q: Quota, sel: Seq<i64>, warning: Option<Warning>) -> (
    Seq<i64>,
    Option<Warning>,
) {
    if sel.len() <= q.capacity {
        (sel, warning)
    } else {
        let free = removable(s.roster, s.rels, sel, sel, Role::Anyone);
        let gone = leading(ranked(s, sel, free), (sel.len() - q.capacity) as nat, true);
        let kept = without(sel, gone);
        if kept.len() > q.capacity {
            let more = leading(ranked(s, kept, kept), (kept.len() - q.capacity) as nat, true);
            (without(kept, more), noted(warning, Warning::CapacityCompromise))
        } else {
            (kept, noted(warning, Warning::Trimmed))
        }
    }
}

/// The repaired selection with its warning.
pub open spec fn repaired(s: Setting, pool: Seq<i64>, q: Quota, sel: Seq<i64>) -> Outline {
    let held = with_partners(s.rels, pool, sel);
    let c = shed(s, q, held, held);
    let d = reinforced(s, pool, q, held, Role::Female, q.sisters as nat, q.sisters as nat, c.0);
    let e = reinforced(s, pool, q, held, Role::Male, q.brothers as nat, q.brothers as nat, d.0);
    let f = trimmed(s, q, e.0, noted_if(noted_if(c.1, d.1), e.1));
    Outline {
        publishers: f.0,
        warning: if f.0.len() < q.capacity {
            noted(f.1, Warning::NotEnough)
        } else {
            f.1
        },
    }
}

/// Records `new` after `current`.
pub fn note(current: Option<Warning>, new: Warning) -> (r: Option<Warning>)
    ensures
        r == noted(current, new),
{
    match current {
        None => Some(new),
        Some(w) => if new == Warning::CapacityCompromise && w != Warning::CapacityCompromise {
            Some(new)
        } else {
            Some(w)
        },
    }
}

/// Records `new`, if there is one, after `current`.
pub fn note_if(current: Option<Warning>, new: Option<Warning>) -> (r: Option<Warning>)
    ensures
        r == noted_if(current, new),
{
    match new {
        None => current,
        Some(w) => note(current, w),
    }
}

/// The mandatory partners of the members of `sel`.
#[verifier::rlimit(60)]
pub fn wanted_of(rels: &Vec<Relation>, sel: &Vec<i64>) -> (out: Vec<i64>)
    ensures
        out@ == wanted(rels@, sel@),
{
    let mut out: Vec<i64> = Vec::new();
    let mut i: usize = 0;
    while i < sel.len()
        invariant
            i <= sel.len(),
            out@ == wanted(rels@, sel@.take(i as int)),
        decreases sel.len() - i,
    {
        let p = sel[i];
        let ghost before = out@;
        let mut j: usize = 0;
        while j < rels.len()
            invariant
                j <= rels.len(),
                out@ == before + partners_of(rels@.take(j as int), p),
            decreases rels.len() - j,
        {
            let r = rels[j];
            proof {
                assert(rels@.take(j as int + 1).drop_last() =~= rels@.take(j as int));
            }
            if r.kind == RelationshipKind::Mandatory {
                if r.a == p {
                    out.push(r.b);
                } else if r.b == p {
                    out.push(r.a);
                }
            }
            assert(out@ =~= before + partners_of(rels@.take(j as int + 1), p));
            j += 1;
        }
        proof {
            assert(rels@.take(rels.len() as int) =~= rels@);
            assert(sel@.take(i as int + 1).drop_last() =~= sel@.take(i as int));
        }
        i += 1;
    }
    assert(sel@.take(sel.len() as int) =~= sel@);
    out
}

/// Adds to `sel` the eligible mandatory partners of its members.
pub fn include_partners(rels: &Vec<Relation>, pool: &Vec<i64>, sel: Vec<i64>) -> (out: Vec<i64>)
    ensures
        out@ == with_partners(rels@, pool@, sel@),
{
    let extra = wanted_of(rels, &sel);
    let ghost start = sel@;
    let mut out = sel;
    let mut i: usize = 0;
    while i < extra.len()
        invariant
            i <= extra.len(),
            out@ == admitted(pool@, start, extra@.take(i as int)),
        decreases extra.len() - i,
    {
        let o = extra[i];
        proof {
            assert(extra@.take(i as int + 1).drop_last() =~= extra@.take(i as int));
        }
        if !has_id(&out, o) && has_id(pool, o) {
            out.push(o);
        }
        i += 1;
    }
    assert(extra@.take(extra.len() as int) =~= extra@);
    out
}

/// Whether `x` is held in `held` by a mandatory pair.
pub fn is_locked(rels: &Vec<Relation>, held: &Vec<i64>, x: i64) -> (r: bool)
    ensures
        r == locked(rels@, held@, x),
{
    if !has_id(held, x) {
        return false;
    }
    let mut i: usize = 0;
    while i < held.len()
        invariant
            i <= held.len(),
            held@.contains(x),
            forall|k: int| 0 <= k < i ==> !bound(rels@, x, #[trigger] held@[k]),
        decreases held.len() - i,
    {
        if are_bound(rels, x, held[i]) {
            return true;
        }
        i += 1;
    }
    false
}

/// The set of the members that mandatory pairs hold in a selection.
pub struct Lock {
    members: HashSet<i64>,
    rels: Ghost<Seq<Relation>>,
    held: Ghost<Seq<i64>>,
}

impl Lock {
    /// The set holds exactly the members that are locked.
    #[verifier::type_invariant]
    spec fn sound(self) -> bool {
        forall|x: i64| #[trigger] self.members@.contains(x) == locked(self.rels@, self.held@, x)
    }

    /// The relations that the lock was made from.
    pub closed spec fn rels(self) -> Seq<Relation> {
        self.rels@
    }

    /// The selection that the lock was made from.
    pub closed spec fn held(self) -> Seq<i64> {
        self.held@
    }

    /// The lock of the selection `held` under the relations `rels`.
    pub fn of(rels: &Vec<Relation>, held: &Vec<i64>) -> (r: Lock)
        ensures
            r.rels() == rels@,
            r.held() == held@,
    {
        broadcast use vstd::std_specs::hash::group_hash_axioms;

        let mut members: HashSet<i64> = HashSet::new();
        let mut i: usize = 0;
        while i < held.len()
            invariant
                i <= held.len(),
                forall|x: i64|
                    #[trigger] members@.contains(x) == (held@.take(i as int).contains(x) && locked(
                        rels@,
                        held@,
                        x,
                    )),
            decreases held.len() - i,
        {
            let ghost before = members@;
            let p = held[i];
            let add = is_locked(rels, held, p);
            if add {
                members.insert(p);
            }
            proof {
                let seen = held@.take(i as int);
                let now = held@.take(i as int + 1);
                assert(now =~= seen.push(p));
                assert forall|x: i64|
                    #[trigger] members@.contains(x) == (now.contains(x) && locked(
                        rels@,
                        held@,
                        x,
                    )) by {
                    assert(before.contains(x) == (seen.contains(x) && locked(rels@, held@, x)));
                    if seen.contains(x) {
                        let m = choose|m: int| 0 <= m < seen.len() && seen[m] == x;
                        assert(now[m] == x);
                    }
                    if now.contains(x) && x != p {
                        let m = choose|m: int| 0 <= m < now.len() && now[m] == x;
                        assert(seen[m] == x);
                    }
                    assert(now[i as int] == p);
                }
            }
            i += 1;
        }
        proof {
            assert(held@.take(held.len() as int) =~= held@);
        }
        Lock { members, rels: Ghost(rels@), held: Ghost(held@) }
    }

    /// Whether `x` is held by a mandatory pair.
    pub fn holds(&self, x: i64) -> (r: bool)
        ensures
            r == locked(self.rels(), self.held(), x),
    {
        broadcast use vstd::std_specs::hash::group_hash_axioms;

        proof {
            use_type_invariant(self);
        }
        self.members.contains(&x)
    }
}

/// The members of `sel` that belong to `role` and are not held by `lock`.
pub fn removable_of(roster: &Vec<Member>, lock: &Lock, sel: &Vec<i64>, role: Role) -> (out: Vec<
    i64,
>)
    ensures
        out@ == removable(roster@, lock.rels(), lock.held(), sel@, role),
{
    let mut out: Vec<i64> = Vec::new();
    let mut i: usize = 0;
    proof {
        reveal(Seq::filter);
        assert(sel@.take(0) =~= Seq::<i64>::empty());
    }
    while i < sel.len()
        invariant
            i <= sel.len(),
            out@ == removable(roster@, lock.rels(), lock.held(), sel@.take(i as int), role),
        decreases sel.len() - i,
    {
        let x = sel[i];
        proof {
            assert(sel@.take(i as int + 1) =~= sel@.take(i as int).push(x));
            sel@.take(i as int).lemma_filter_push(
                x,
                removable_test(roster@, lock.rels(), lock.held(), role),
            );
        }
        if member_in_role(roster, x, role) && !lock.holds(x) {
            out.push(x);
        }
        i += 1;
    }
    assert(sel@.take(sel.len() as int) =~= sel@);
    out
}

/// `sel` without the members listed in `gone`.
pub fn remove_all(sel: &Vec<i64>, gone: &Vec<i64>) -> (out: Vec<i64>)
    ensures
        out@ == without(sel@, gone@),
{
    let mut out: Vec<i64> = Vec::new();
    let mut i: usize = 0;
    proof {
        reveal(Seq::filter);
        assert(sel@.take(0) =~= Seq::<i64>::empty());
    }
    while i < sel.len()
        invariant
            i <= sel.len(),
            out@ == without(sel@.take(i as int), gone@),
        decreases sel.len() - i,
    {
        let x = sel[i];
        proof {
            assert(sel@.take(i as int + 1) =~= sel@.take(i as int).push(x));
            sel@.take(i as int).lemma_filter_push(x, without_test(gone@));
        }
        if !has_id(gone, x) {
            out.push(x);
        }
        i += 1;
    }
    assert(sel@.take(sel.len() as int) =~= sel@);
    out
}

/// Lets surplus managers leave, as far as mandatory pairs allow.
pub fn shed_managers(ctx: &Context, q: &Quota, held: &Vec<i64>, sel: Vec<i64>) -> (r: (
    Vec<i64>,
    Option<Warning>,
))
    ensures
        (r.0@, r.1) == shed(ctx@, *q, held@, sel@),
{
    let have = count_role(ctx.roster, &sel, Role::Manager);
    if have > q.managers {
        let lock = Lock::of(ctx.rels, held);
        let free = removable_of(ctx.roster, &lock, &sel, Role::Manager);
        let short = free.len() < have - q.managers;
        let entries = ctx.score_all(&sel, &free);
        let gone = take_leading(entries, have - q.managers, true);
        let out = remove_all(&sel, &gone);
        (
            out,
            if short {
                Some(Warning::ManagersLocked)
            } else {
                None
            },
        )
    } else {
        (sel, None)
    }
}

/// The candidates that may be added to restore the minimum of `role`.
pub fn newcomers_of(ctx: &Context, pool: &Vec<i64>, q: &Quota, sel: &Vec<i64>, role: Role) -> (out:
    Vec<i64>)
    ensures
        out@ == newcomers(ctx@, pool@, *q, sel@, role),
{
    if role == Role::Male && count_role(ctx.roster, sel, Role::Manager) >= q.managers {
        let plain = eligible_of(ctx.roster, pool, sel, Role::PlainMale);
        if plain.len() > 0 {
            return plain;
        }
    }
    eligible_of(ctx.roster, pool, sel, role)
}

/// The members that may give up their place for a newcomer of `role`,
/// where `lock` was made from the relations of `ctx`.
pub fn leavers_of(ctx: &Context, lock: &Lock, sel: &Vec<i64>, role: Role) -> (out: Vec<i64>)
    ensures
        lock.rels() == ctx.rels@ ==> out@ == leavers(ctx@, lock.held(), sel@, role),
{
    if role == Role::Female {
        let plain = removable_of(ctx.roster, lock, sel, Role::PlainMale);
        if plain.len() > 0 {
            plain
        } else {
            removable_of(ctx.roster, lock, sel, Role::Male)
        }
    } else {
        removable_of(ctx.roster, lock, sel, Role::Female)
    }
}

/// One round of restoring the minimum `need` of `role`, where `lock` was
/// made from the relations of `ctx`.
#[verifier::rlimit(60)]
pub fn one_round(
    ctx: &Context,
    pool: &Vec<i64>,
    q: &Quota,
    lock: &Lock,
    role: Role,
    need: usize,
    sel: Vec<i64>,
) -> (r: (Vec<i64>, Verdict))
    ensures
        lock.rels() == ctx.rels@ ==> (r.0@, r.1) == round(
            ctx@,
            pool@,
            *q,
            lock.held(),
            role,
            need as nat,
            sel@,
        ),
{
    reveal(round);
    if count_role(ctx.roster, &sel, role) >= need {
        return (sel, Verdict::Enough);
    }
    let cands = newcomers_of(ctx, pool, q, &sel, role);
    if cands.len() == 0 {
        let w = if role == Role::Female {
            Warning::FewerSisters
        } else {
            Warning::FewerBrothers
        };
        return (sel, Verdict::Halt(w));
    }
    let entries = ctx.score_all(&sel, &cands);
    proof {
        lemma_leading_len(entries@, 1, false);
    }
    let best = take_leading(entries, 1, false);
    let add = best[0];
    if sel.len() >= q.capacity {
        let out = leavers_of(ctx, lock, &sel, role);
        if out.len() == 0 {
            let w = if role == Role::Female {
                Warning::NoRoomForSister
            } else {
                Warning::NoRoomForBrother
            };
            return (sel, Verdict::Halt(w));
        }
        let entries = ctx.score_all(&sel, &out);
        let gone = take_leading(entries, 1, true);
        let mut next = remove_all(&sel, &gone);
        next.push(add);
        (next, Verdict::Next)
    } else {
        let mut next = sel;
        next.push(add);
        (next, Verdict::Next)
    }
}

/// Restores the minimum `need` of `role` as far as possible.
pub fn reinforce(
    ctx: &Context,
    pool: &Vec<i64>,
    q: &Quota,
    held: &Vec<i64>,
    role: Role,
    need: usize,
    sel: Vec<i64>,
) -> (r: (Vec<i64>, Option<Warning>))
    ensures
        (r.0@, r.1) == reinforced(ctx@, pool@, *q, held@, role, need as nat, need as nat, sel@),
{
    let ghost goal = reinforced(ctx@, pool@, *q, held@, role, need as nat, need as nat, sel@);
    let lock = Lock::of(ctx.rels, held);
    let mut cur = sel;
    let mut rounds = need;
    while rounds > 0
        invariant
            lock.rels() == ctx.rels@,
            lock.held() == held@,
            goal == reinforced(ctx@, pool@, *q, held@, role, need as nat, need as nat, sel@),
            goal == reinforced(ctx@, pool@, *q, held@, role, need as nat, rounds as nat, cur@),
        decreases rounds,
    {
        let r = one_round(ctx, pool, q, &lock, role, need, cur);
        match r.1 {
            Verdict::Enough => {
                return (r.0, None);
            },
            Verdict::Halt(w) => {
                return (r.0, Some(w));
            },
            Verdict::Next => {
                cur = r.0;
                rounds -= 1;
            },
        }
    }
    (cur, None)
}

/// Cuts the selection to the capacity of the shift.
pub fn trim(ctx: &Context, q: &Quota, sel: Vec<i64>, warning: Option<Warning>) -> (r: (
    Vec<i64>,
    Option<Warning>,
))
    ensures
        (r.0@, r.1) == trimmed(ctx@, *q, sel@, warning),
{
    if sel.len() <= q.capacity {
        return (sel, warning);
    }
    let lock = Lock::of(ctx.rels, &sel);
    let free = removable_of(ctx.roster, &lock, &sel, Role::Anyone);
    let entries = ctx.score_all(&sel, &free);
    let gone = take_leading(entries, sel.len() - q.capacity, true);
    let kept = remove_all(&sel, &gone);
    if kept.len() > q.capacity {
        let entries = ctx.score_all(&kept, &kept);
        let more = take_leading(entries, kept.len() - q.capacity, true);
        (remove_all(&kept, &more), note(warning, Warning::CapacityCompromise))
    } else {
        (kept, note(warning, Warning::Trimmed))
    }
}

/// Repairs the selection `sel` for a shift with quota `q` over the
/// candidates `pool`.
#[verifier::rlimit(60)]
pub fn repair(ctx: &Context, pool: &Vec<i64>, q: &Quota, sel: Vec<i64>) -> (plan: Plan)
    ensures
        plan@ == repaired(ctx@, pool@, *q, sel@),
{
    let held = include_partners(ctx.rels, pool, sel);
    let start = crate::fairness::copy_ids(&held);
    let c = shed_managers(ctx, q, &held, start);
    let d = reinforce(ctx, pool, q, &held, Role::Female, q.sisters, c.0);
    let e = reinforce(ctx, pool, q, &held, Role::Male, q.brothers, d.0);
    let f = trim(ctx, q, e.0, note_if(note_if(c.1, d.1), e.1));
    let warning = if f.0.len() < q.capacity {
        note(f.1, Warning::NotEnough)
    } else {
        f.1
    };
    Plan { publishers: f.0, warning }
}

/// The plan of a shift: the greedy selection, repaired.
pub open spec fn planned(s: Setting, pool: Seq<i64>, q: Quota) -> Outline {
    repaired(s, pool, q, greedy(s, pool, q))
}

/// Plans a shift with quota `q` from the candidates `pool`.
pub fn plan_shift(ctx: &Context, pool: &Vec<i64>, q: &Quota) -> (plan: Plan)
    ensures
        plan@ == planned(ctx@, pool@, *q),
{
    let sel = select_greedy(ctx, pool, q);
    repair(ctx, pool, q, sel)
}

} // verus!
