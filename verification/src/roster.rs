//! The people and rules that a shift is planned from: members with their
//! gender, role and priority, relationships between them, and the quotas of a
//! schedule.

use vstd::prelude::*;

verus! {

/// The gender recorded for a publisher.
#[derive(Clone, Copy, Debug, PartialEq, Eq, Structural)]
pub enum Gender {
    Male,
    Female,
    /// Neither of the two was recorded; such a member only fills free places.
    Unspecified,
}

/// How strongly two publishers belong together.
#[derive(Clone, Copy, Debug, PartialEq, Eq, Structural)]
pub enum RelationshipKind {
    /// If one is assigned and the other is eligible, both are assigned.
    Mandatory,
    /// Assigning both is preferred.
    Recommended,
}

/// What the planner reads of a publisher.
#[derive(Clone, Copy, Debug, PartialEq, Eq, Structural)]
pub struct Member {
    pub id: i64,
    pub gender: Gender,
    pub shift_manager: bool,
    /// Higher means more eager.
    pub priority: i64,
}

/// An unordered pair of publishers with the kind of their relationship.
#[derive(Clone, Copy, Debug, PartialEq, Eq, Structural)]
pub struct Relation {
    pub a: i64,
    pub b: i64,
    pub kind: RelationshipKind,
}

/// The places of a shift: `capacity` in all, of which at most `managers`
/// managers, at least `brothers` men and at least `sisters` women.
#[derive(Clone, Copy, Debug, PartialEq, Eq, Structural)]
pub struct Quota {
    pub capacity: usize,
    pub managers: usize,
    pub brothers: usize,
    pub sisters: usize,
}

/// A group of members that a planning step draws from or counts.
#[derive(Clone, Copy, Debug, PartialEq, Eq, Structural)]
pub enum Role {
    /// Men who are shift managers.
    Manager,
    Male,
    Female,
    /// Men who are not shift managers.
    PlainMale,
    Anyone,
}

impl Member {
    /// Whether this member belongs to the group `role`.
    pub open spec fn fits(self, role: Role) -> bool {
        match role {
            Role::Manager => self.shift_manager && self.gender == Gender::Male,
            Role::Male => self.gender == Gender::Male,
            Role::Female => self.gender == Gender::Female,
            Role::PlainMale => !self.shift_manager && self.gender == Gender::Male,
            Role::Anyone => true,
        }
    }

    /// Whether this member belongs to the group `role`.
    pub fn has_role(&self, role: Role) -> (r: bool)
        ensures
            r == self.fits(role),
    {
        match role {
            Role::Manager => self.shift_manager && self.gender == Gender::Male,
            Role::Male => self.gender == Gender::Male,
            Role::Female => self.gender == Gender::Female,
            Role::PlainMale => !self.shift_manager && self.gender == Gender::Male,
            Role::Anyone => true,
        }
    }
}

impl Relation {
    /// Whether this relation joins `p` with `o`, read from `p`'s side.
    pub open spec fn links(self, p: i64, o: i64) -> bool {
        if self.a == p {
            self.b == o
        } else {
            self.b == p && self.a == o
        }
    }

    /// Whether this relation joins `p` with `o`, read from `p`'s side.
    pub fn joins(&self, p: i64, o: i64) -> (r: bool)
        ensures
            r == self.links(p, o),
    {
        if self.a == p {
            self.b == o
        } else {
            self.b == p && self.a == o
        }
    }
}

/// Whether some record of `id` in the roster belongs to the group `role`.
/// Everybody counts as `Anyone`, listed or not.
pub open spec fn in_role(roster: Seq<Member>, id: i64, role: Role) -> bool {
    role == Role::Anyone || exists|k: int|
        0 <= k < roster.len() && #[trigger] roster[k].id == id && roster[k].fits(role)
}

/// The priority of the first record of `id` in the roster, 0 if there is none.
pub open spec fn priority_of(roster: Seq<Member>, id: i64) -> int
    decreases roster.len(),
{
    if roster.len() == 0 {
        0
    } else if roster[0].id == id {
        roster[0].priority as int
    } else {
        priority_of(roster.drop_first(), id)
    }
}

/// Whether `p` and `o` are bound by a mandatory relationship.
pub open spec fn bound(rels: Seq<Relation>, p: i64, o: i64) -> bool {
    exists|k: int|
        0 <= k < rels.len() && (#[trigger] rels[k]).kind == RelationshipKind::Mandatory
            && rels[k].links(p, o)
}

/// The kind of the first relationship that joins `p` with `o`, if any.
pub open spec fn kind_between(rels: Seq<Relation>, p: i64, o: i64) -> Option<RelationshipKind>
    decreases rels.len(),
{
    if rels.len() == 0 {
        None
    } else if rels[0].links(p, o) {
        Some(rels[0].kind)
    } else {
        kind_between(rels.drop_first(), p, o)
    }
}

/// How many entries of `sel` belong to the group `role`.
pub open spec fn headcount(roster: Seq<Member>, sel: Seq<i64>, role: Role) -> nat
    decreases sel.len(),
{
    if sel.len() == 0 {
        0
    } else {
        headcount(roster, sel.drop_last(), role) + if in_role(roster, sel.last(), role) {
            1nat
        } else {
            0nat
        }
    }
}

/// Whether some record of `id` in the roster belongs to the group `role`.
pub fn member_in_role(roster: &Vec<Member>, id: i64, role: Role) -> (r: bool)
    ensures
        r == in_role(roster@, id, role),
{
    if role == Role::Anyone {
        return true;
    }
    let mut i: usize = 0;
    while i < roster.len()
        invariant
            i <= roster.len(),
            role != Role::Anyone,
            forall|k: int| 0 <= k < i ==> !(#[trigger] roster@[k].id == id && roster@[k].fits(role)),
        decreases roster.len() - i,
    {
        if roster[i].id == id && roster[i].has_role(role) {
            return true;
        }
        i += 1;
    }
    false
}

/// The priority of the first record of `id` in the roster, 0 if there is none.
pub fn member_priority(roster: &Vec<Member>, id: i64) -> (r: i64)
    ensures
        r == priority_of(roster@, id),
{
    let mut i: usize = 0;
    assert(roster@.skip(0) =~= roster@);
    while i < roster.len()
        invariant
            i <= roster.len(),
            priority_of(roster@, id) == priority_of(roster@.skip(i as int), id),
        decreases roster.len() - i,
    {
        assert(roster@.skip(i as int)[0] == roster@[i as int]);
        if roster[i].id == id {
            return roster[i].priority;
        }
        assert(roster@.skip(i as int).drop_first() =~= roster@.skip(i as int + 1));
        i += 1;
    }
    0
}

/// Whether `p` and `o` are bound by a mandatory relationship.
pub fn are_bound(rels: &Vec<Relation>, p: i64, o: i64) -> (r: bool)
    ensures
        r == bound(rels@, p, o),
{
    let mut i: usize = 0;
    while i < rels.len()
        invariant
            i <= rels.len(),
            forall|k: int|
                0 <= k < i ==> !((#[trigger] rels@[k]).kind == RelationshipKind::Mandatory
                    && rels@[k].links(p, o)),
        decreases rels.len() - i,
    {
        if rels[i].kind == RelationshipKind::Mandatory && rels[i].joins(p, o) {
            return true;
        }
        i += 1;
    }
    false
}

/// The kind of the first relationship that joins `p` with `o`, if any.
pub fn relation_between(rels: &Vec<Relation>, p: i64, o: i64) -> (r: Option<RelationshipKind>)
    ensures
        r == kind_between(rels@, p, o),
{
    let mut i: usize = 0;
    assert(rels@.skip(0) =~= rels@);
    while i < rels.len()
        invariant
            i <= rels.len(),
            kind_between(rels@, p, o) == kind_between(rels@.skip(i as int), p, o),
        decreases rels.len() - i,
    {
        assert(rels@.skip(i as int)[0] == rels@[i as int]);
        if rels[i].joins(p, o) {
            return Some(rels[i].kind);
        }
        assert(rels@.skip(i as int).drop_first() =~= rels@.skip(i as int + 1));
        i += 1;
    }
    None
}

/// How many entries of `sel` belong to the group `role`.
pub fn count_role(roster: &Vec<Member>, sel: &Vec<i64>, role: Role) -> (r: usize)
    ensures
        r == headcount(roster@, sel@, role),
{
    let mut n: usize = 0;
    let mut i: usize = 0;
    while i < sel.len()
        invariant
            i <= sel.len(),
            n <= i,
            n == headcount(roster@, sel@.take(i as int), role),
        decreases sel.len() - i,
    {
        assert(sel@.take(i as int + 1).drop_last() =~= sel@.take(i as int));
        if member_in_role(roster, sel[i], role) {
            n += 1;
        }
        i += 1;
    }
    assert(sel@.take(sel.len() as int) =~= sel@);
    n
}

} // verus!
