//! The store as it is handed out for a backup and taken in from one.

use vstd::prelude::*;
use vstd::string::StringExecFns;
use crate::roster::{Relation, RelationshipKind};
use crate::store::{
    absence_key, copy_opt, copy_publisher, copy_schedule, copy_shift, opt_text, publisher_key,
    schedule_key, shift_key, Absence, Publisher, Schedule, Shift, Store,
};
use crate::order::{rising_order, rising_order_sorts, sort_ids};
use crate::table::ascending;

verus! {

/// An absence in a backup.
#[derive(Clone, Debug, PartialEq)]
pub struct AbsenceExport {
    pub id: i64,
    pub publisher_id: i64,
    pub start_date: String,
    pub end_date: String,
    pub description: Option<String>,
}

/// A pair of a publisher and a schedule in a backup.
#[derive(Clone, Debug, PartialEq)]
pub struct AvailabilityExport(pub i64, pub i64);

/// A relationship in a backup: the two publishers and the word for the
/// kind.
#[derive(Clone, Debug, PartialEq)]
pub struct RelationshipExport(pub i64, pub i64, pub String);

/// A backup of the store, without the settings.
#[derive(Clone, Debug, PartialEq)]
pub struct ExportPayload {
    pub publishers: Vec<Publisher>,
    pub next_id: i64,
    pub schedules: Vec<Schedule>,
    pub next_schedule_id: i64,
    pub availability: Vec<AvailabilityExport>,
    pub absences: Vec<AbsenceExport>,
    pub next_absence_id: i64,
    pub shifts: Vec<Shift>,
    pub next_shift_id: i64,
    pub relationships: Vec<RelationshipExport>,
}

/// A next id as it is taken in: 1 at least.
pub open spec fn at_least_one(n: i64) -> i64 {
    if n < 1 {
        1
    } else {
        n
    }
}

impl AbsenceExport {
    /// Whether the backup row and the absence hold the same.
    pub open spec fn matches(self, a: Absence) -> bool {
        a.holds(
            self.id,
            self.publisher_id,
            self.start_date@,
            self.end_date@,
            opt_text(self.description),
        )
    }
}

impl RelationshipExport {
    /// The relation that the backup row stands for.
    pub open spec fn relation(self) -> Relation {
        Relation { a: self.0, b: self.1, kind: RelationshipKind::of_word(self.2@) }
    }
}

/// The ids of the publishers.
pub open spec fn publisher_ids(rows: Seq<Publisher>) -> Seq<i64> {
    rows.map_values(|p: Publisher| p.id)
}

/// The ids of the schedules.
pub open spec fn schedule_ids(rows: Seq<Schedule>) -> Seq<i64> {
    rows.map_values(|s: Schedule| s.id)
}

/// The ids of the absences of a backup.
pub open spec fn absence_ids(rows: Seq<AbsenceExport>) -> Seq<i64> {
    rows.map_values(|a: AbsenceExport| a.id)
}

/// The ids of the shifts.
pub open spec fn shift_ids(rows: Seq<Shift>) -> Seq<i64> {
    rows.map_values(|s: Shift| s.id)
}

/// Whether a table with these ids can be taken in: no id occurs twice, and
/// none is the last number, above which no next id would be left.
pub open spec fn ids_fit(ids: Seq<i64>) -> bool {
    ids.no_duplicates() && forall|i: int| 0 <= i < ids.len() ==> ids[i] < i64::MAX
}

/// The next id of a table that is taken in: the one the backup names or 1,
/// and above every id in the table.
pub open spec fn next_after(ids: Seq<i64>, next: i64) -> int
    decreases ids.len(),
{
    if ids.len() == 0 {
        at_least_one(next) as int
    } else {
        let m = next_after(ids.drop_last(), next);
        if ids.last() >= m {
            ids.last() + 1
        } else {
            m
        }
    }
}

impl ExportPayload {
    /// Whether the backup can be taken in: in no table an id occurs twice
    /// or is the last number.
    pub open spec fn acceptable(self) -> bool {
        &&& ids_fit(publisher_ids(self.publishers@))
        &&& ids_fit(schedule_ids(self.schedules@))
        &&& ids_fit(absence_ids(self.absences@))
        &&& ids_fit(shift_ids(self.shifts@))
    }
}

/// The next id is above every id.
pub proof fn lemma_next_after_above(ids: Seq<i64>, next: i64, i: int)
    requires
        0 <= i < ids.len(),
    ensures
        ids[i] < next_after(ids, next),
    decreases ids.len(),
{
    if i < ids.len() - 1 {
        lemma_next_after_above(ids.drop_last(), next, i);
    }
}

/// The next id is 1 at least.
pub proof fn lemma_next_after_least(ids: Seq<i64>, next: i64)
    ensures
        1 <= next_after(ids, next),
    decreases ids.len(),
{
    if ids.len() > 0 {
        lemma_next_after_least(ids.drop_last(), next);
    }
}

/// How the rows of a table with these ids are arranged when they are taken
/// in: the positions in the order of the ids, and the next id; nothing if
/// the table cannot be taken in.
#[verifier::rlimit(60)]
pub fn arrange(ids: &Vec<i64>, next: i64) -> (r: Option<(Vec<usize>, i64)>)
    ensures
        r is Some == ids_fit(ids@),
        r matches Some(a) ==> {
            &&& a.0@ == rising_order(ids@, ids@.len())
            &&& a.0.len() == ids.len()
            &&& a.1 == next_after(ids@, next)
            &&& 1 <= a.1
            &&& forall|i: int| 0 <= i < a.0.len() ==> a.0[i] < ids.len()
            &&& forall|i: int, j: int|
                0 <= i < j < a.0.len() ==> ids@[a.0[i] as int] < ids@[a.0[j] as int]
            &&& forall|i: int| 0 <= i < a.0.len() ==> ids@[a.0[i] as int] < a.1
        },
{
    let order = sort_ids(ids);
    proof {
        rising_order_sorts(ids@, ids@.len());
    }
    let mut limit: i64 = if next < 1 {
        1
    } else {
        next
    };
    let mut i: usize = 0;
    while i < ids.len()
        invariant
            i <= ids.len(),
            limit == next_after(ids@.take(i as int), next),
            forall|k: int| 0 <= k < i ==> ids@[k] < i64::MAX,
        decreases ids.len() - i,
    {
        if ids[i] == i64::MAX {
            return None;
        }
        proof {
            assert(ids@.take(i as int + 1).drop_last() =~= ids@.take(i as int));
        }
        if ids[i] >= limit {
            limit = ids[i] + 1;
        }
        i += 1;
    }
    proof {
        assert(ids@.take(ids.len() as int) =~= ids@);
    }
    let mut j: usize = 1;
    while j < order.len()
        invariant
            1 <= j,
            order.len() == ids.len(),
            order@ == rising_order(ids@, ids@.len()),
            forall|k: int| 0 <= k < order.len() ==> order[k] < ids.len(),
            forall|a: int, b: int|
                0 <= a < b < order.len() ==> ids@[order[a] as int] <= ids@[order[b] as int],
            order@.no_duplicates(),
            forall|a: int, b: int|
                0 <= a < b < j && b < order.len() ==> ids@[order[a] as int] < ids@[order[b] as int],
        decreases order.len() - j,
    {
        if ids[order[j - 1]] >= ids[order[j]] {
            proof {
                let p = order[j - 1] as int;
                let q = order[j as int] as int;
                assert(order@[j - 1] != order@[j as int]);
                assert(ids@[p] == ids@[q] && p != q);
            }
            return None;
        }
        proof {
            assert forall|a: int, b: int|
                0 <= a < b < j + 1 && b < order.len() implies ids@[order[a] as int]
                < ids@[order[b] as int] by {
                if b == j && a < j - 1 {
                    assert(ids@[order[a] as int] <= ids@[order[j - 1] as int]);
                }
            }
        }
        j += 1;
    }
    proof {
        assert forall|a: int, b: int|
            0 <= a < ids@.len() && 0 <= b < ids@.len() && a != b implies ids@[a] != ids@[b] by {
            assert(order@.contains(a as usize));
            assert(order@.contains(b as usize));
            let x = choose|x: int| 0 <= x < order@.len() && order@[x] == a as usize;
            let y = choose|y: int| 0 <= y < order@.len() && order@[y] == b as usize;
            if x < y {
                assert(ids@[order[x] as int] < ids@[order[y] as int]);
            } else if y < x {
                assert(ids@[order[y] as int] < ids@[order[x] as int]);
            }
        }
        assert forall|k: int| 0 <= k < order.len() implies ids@[order[k] as int] < limit by {
            lemma_next_after_above(ids@, next, order[k] as int);
        }
        lemma_next_after_least(ids@, next);
    }
    Some((order, limit))
}

/// A backup of the store.
#[verifier::rlimit(60)]
pub fn export_data(db: &Store) -> (out: ExportPayload)
    ensures
        out.next_id == db.next_id,
        out.next_schedule_id == db.next_schedule_id,
        out.next_absence_id == db.next_absence_id,
        out.next_shift_id == db.next_shift_id,
        out.publishers.len() == db.publishers.len(),
        forall|i: int|
            0 <= i < out.publishers.len() ==> (#[trigger] out.publishers@[i]).same_as(
                db.publishers@[i],
            ),
        out.schedules.len() == db.schedules.len(),
        forall|i: int|
            0 <= i < out.schedules.len() ==> (#[trigger] out.schedules@[i]).copies(
                db.schedules@[i],
                db.schedules@[i].id,
            ),
        out.availability.len() == db.availability.len(),
        forall|i: int|
            0 <= i < out.availability.len() ==> (#[trigger] out.availability@[i]).0
                == db.availability@[i].0 && out.availability@[i].1 == db.availability@[i].1,
        out.absences.len() == db.absences.len(),
        forall|i: int|
            0 <= i < out.absences.len() ==> (#[trigger] out.absences@[i]).matches(db.absences@[i]),
        out.shifts.len() == db.shifts.len(),
        forall|i: int|
            0 <= i < out.shifts.len() ==> (#[trigger] out.shifts@[i]).same_as(db.shifts@[i]),
        out.relationships.len() == db.relationships.len(),
        forall|i: int|
            0 <= i < out.relationships.len() ==> (#[trigger] out.relationships@[i]).0
                == db.relationships@[i].a && out.relationships@[i].1 == db.relationships@[i].b
                && out.relationships@[i].2@ == db.relationships@[i].kind.word(),
{
    let mut publishers: Vec<Publisher> = Vec::new();
    let mut i: usize = 0;
    while i < db.publishers.len()
        invariant
            i <= db.publishers.len(),
            publishers.len() == i,
            forall|k: int|
                0 <= k < i ==> (#[trigger] publishers@[k]).same_as(db.publishers@[k]),
        decreases db.publishers.len() - i,
    {
        publishers.push(copy_publisher(&db.publishers[i]));
        i += 1;
    }
    let mut schedules: Vec<Schedule> = Vec::new();
    let mut i: usize = 0;
    while i < db.schedules.len()
        invariant
            i <= db.schedules.len(),
            schedules.len() == i,
            forall|k: int|
                0 <= k < i ==> (#[trigger] schedules@[k]).copies(
                    db.schedules@[k],
                    db.schedules@[k].id,
                ),
        decreases db.schedules.len() - i,
    {
        schedules.push(copy_schedule(&db.schedules[i], db.schedules[i].id));
        i += 1;
    }
    let mut availability: Vec<AvailabilityExport> = Vec::new();
    let mut i: usize = 0;
    while i < db.availability.len()
        invariant
            i <= db.availability.len(),
            availability.len() == i,
            forall|k: int|
                0 <= k < i ==> (#[trigger] availability@[k]).0 == db.availability@[k].0
                    && availability@[k].1 == db.availability@[k].1,
        decreases db.availability.len() - i,
    {
        availability.push(AvailabilityExport(db.availability[i].0, db.availability[i].1));
        i += 1;
    }
    let mut absences: Vec<AbsenceExport> = Vec::new();
    let mut i: usize = 0;
    while i < db.absences.len()
        invariant
            i <= db.absences.len(),
            absences.len() == i,
            forall|k: int| 0 <= k < i ==> (#[trigger] absences@[k]).matches(db.absences@[k]),
        decreases db.absences.len() - i,
    {
        let a = &db.absences[i];
        absences.push(
            AbsenceExport {
                id: a.id,
                publisher_id: a.publisher_id,
                start_date: a.start_date.clone(),
                end_date: a.end_date.clone(),
                description: copy_opt(&a.description),
            },
        );
        i += 1;
    }
    let mut shifts: Vec<Shift> = Vec::new();
    let mut i: usize = 0;
    while i < db.shifts.len()
        invariant
            i <= db.shifts.len(),
            shifts.len() == i,
            forall|k: int| 0 <= k < i ==> (#[trigger] shifts@[k]).same_as(db.shifts@[k]),
        decreases db.shifts.len() - i,
    {
        shifts.push(copy_shift(&db.shifts[i]));
        i += 1;
    }
    let mut relationships: Vec<RelationshipExport> = Vec::new();
    let mut i: usize = 0;
    while i < db.relationships.len()
        invariant
            i <= db.relationships.len(),
            relationships.len() == i,
            forall|k: int|
                0 <= k < i ==> (#[trigger] relationships@[k]).0 == db.relationships@[k].a
                    && relationships@[k].1 == db.relationships@[k].b && relationships@[k].2@
                    == db.relationships@[k].kind.word(),
        decreases db.relationships.len() - i,
    {
        let r = db.relationships[i];
        relationships.push(RelationshipExport(r.a, r.b, String::from_str(r.kind.as_str())));
        i += 1;
    }
    ExportPayload {
        publishers,
        next_id: db.next_id,
        schedules,
        next_schedule_id: db.next_schedule_id,
        availability,
        absences,
        next_absence_id: db.next_absence_id,
        shifts,
        next_shift_id: db.next_shift_id,
        relationships,
    }
}

/// The absence that a backup row stands for.
fn absence_of(a: &AbsenceExport) -> (r: Absence)
    ensures
        a.matches(r),
{
    Absence {
        id: a.id,
        publisher_id: a.publisher_id,
        start_date: a.start_date.clone(),
        end_date: a.end_date.clone(),
        description: copy_opt(&a.description),
    }
}

/// The publishers of a backup at the positions `order`, one after the other.
#[verifier::rlimit(60)]
fn take_publishers(rows: &Vec<Publisher>, order: &Vec<usize>, limit: i64) -> (out: Vec<Publisher>)
    requires
        order.len() == rows.len(),
        forall|i: int| 0 <= i < order.len() ==> order[i] < rows.len(),
        forall|i: int, j: int|
            0 <= i < j < order.len() ==> publisher_ids(rows@)[order[i] as int] < publisher_ids(
                rows@,
            )[order[j] as int],
        forall|i: int| 0 <= i < order.len() ==> publisher_ids(rows@)[order[i] as int] < limit,
    ensures
        out.len() == rows.len(),
        forall|i: int|
            0 <= i < out.len() ==> (#[trigger] out@[i]).same_as(rows@[order[i] as int]),
        ascending(out@, publisher_key(), limit as int),
{
    let mut out: Vec<Publisher> = Vec::new();
    let mut i: usize = 0;
    while i < order.len()
        invariant
            i <= order.len(),
            out.len() == i,
            order.len() == rows.len(),
            forall|k: int| 0 <= k < order.len() ==> order[k] < rows.len(),
            forall|k: int|
                0 <= k < i ==> (#[trigger] out@[k]).same_as(rows@[order[k] as int]),
        decreases order.len() - i,
    {
        out.push(copy_publisher(&rows[order[i]]));
        i += 1;
    }
    proof {
        assert forall|a: int, b: int| 0 <= a < b < out@.len() implies publisher_key()(out@[a]) < publisher_key()(
            out@[b],
        ) by {
            assert((out@[a]).same_as(rows@[order[a] as int]));
            assert((out@[b]).same_as(rows@[order[b] as int]));
            assert(publisher_ids(rows@)[order[a] as int] < publisher_ids(rows@)[order[b] as int]);
        }
        assert forall|a: int| 0 <= a < out@.len() implies publisher_key()(out@[a]) < limit by {
            assert((out@[a]).same_as(rows@[order[a] as int]));
            assert(publisher_ids(rows@)[order[a] as int] < limit);
        }
    }
    out
}

/// The schedules of a backup at the positions `order`, one after the other.
#[verifier::rlimit(60)]
fn take_schedules(rows: &Vec<Schedule>, order: &Vec<usize>, limit: i64) -> (out: Vec<Schedule>)
    requires
        order.len() == rows.len(),
        forall|i: int| 0 <= i < order.len() ==> order[i] < rows.len(),
        forall|i: int, j: int|
            0 <= i < j < order.len() ==> schedule_ids(rows@)[order[i] as int] < schedule_ids(
                rows@,
            )[order[j] as int],
        forall|i: int| 0 <= i < order.len() ==> schedule_ids(rows@)[order[i] as int] < limit,
    ensures
        out.len() == rows.len(),
        forall|i: int|
            0 <= i < out.len() ==> (#[trigger] out@[i]).copies(rows@[order[i] as int], rows@[order[i] as int].id),
        ascending(out@, schedule_key(), limit as int),
{
    let mut out: Vec<Schedule> = Vec::new();
    let mut i: usize = 0;
    while i < order.len()
        invariant
            i <= order.len(),
            out.len() == i,
            order.len() == rows.len(),
            forall|k: int| 0 <= k < order.len() ==> order[k] < rows.len(),
            forall|k: int|
                0 <= k < i ==> (#[trigger] out@[k]).copies(rows@[order[k] as int], rows@[order[k] as int].id),
        decreases order.len() - i,
    {
        out.push(copy_schedule(&rows[order[i]], rows[order[i]].id));
        i += 1;
    }
    proof {
        assert forall|a: int, b: int| 0 <= a < b < out@.len() implies schedule_key()(out@[a]) < schedule_key()(
            out@[b],
        ) by {
            assert((out@[a]).copies(rows@[order[a] as int], rows@[order[a] as int].id));
            assert((out@[b]).copies(rows@[order[b] as int], rows@[order[b] as int].id));
            assert(schedule_ids(rows@)[order[a] as int] < schedule_ids(rows@)[order[b] as int]);
        }
        assert forall|a: int| 0 <= a < out@.len() implies schedule_key()(out@[a]) < limit by {
            assert((out@[a]).copies(rows@[order[a] as int], rows@[order[a] as int].id));
            assert(schedule_ids(rows@)[order[a] as int] < limit);
        }
    }
    out
}

/// The absences of a backup at the positions `order`, one after the other.
#[verifier::rlimit(60)]
fn take_absences(rows: &Vec<AbsenceExport>, order: &Vec<usize>, limit: i64) -> (out: Vec<Absence>)
    requires
        order.len() == rows.len(),
        forall|i: int| 0 <= i < order.len() ==> order[i] < rows.len(),
        forall|i: int, j: int|
            0 <= i < j < order.len() ==> absence_ids(rows@)[order[i] as int] < absence_ids(
                rows@,
            )[order[j] as int],
        forall|i: int| 0 <= i < order.len() ==> absence_ids(rows@)[order[i] as int] < limit,
    ensures
        out.len() == rows.len(),
        forall|i: int|
            0 <= i < out.len() ==> rows@[order[i] as int].matches(#[trigger] out@[i]),
        ascending(out@, absence_key(), limit as int),
{
    let mut out: Vec<Absence> = Vec::new();
    let mut i: usize = 0;
    while i < order.len()
        invariant
            i <= order.len(),
            out.len() == i,
            order.len() == rows.len(),
            forall|k: int| 0 <= k < order.len() ==> order[k] < rows.len(),
            forall|k: int|
                0 <= k < i ==> rows@[order[k] as int].matches(#[trigger] out@[k]),
        decreases order.len() - i,
    {
        out.push(absence_of(&rows[order[i]]));
        i += 1;
    }
    proof {
        assert forall|a: int, b: int| 0 <= a < b < out@.len() implies absence_key()(out@[a]) < absence_key()(
            out@[b],
        ) by {
            assert(rows@[order[a] as int].matches(out@[a]));
            assert(rows@[order[b] as int].matches(out@[b]));
            assert(absence_ids(rows@)[order[a] as int] < absence_ids(rows@)[order[b] as int]);
        }
        assert forall|a: int| 0 <= a < out@.len() implies absence_key()(out@[a]) < limit by {
            assert(rows@[order[a] as int].matches(out@[a]));
            assert(absence_ids(rows@)[order[a] as int] < limit);
        }
    }
    out
}

/// The shifts of a backup at the positions `order`, one after the other.
#[verifier::rlimit(60)]
fn take_shifts(rows: &Vec<Shift>, order: &Vec<usize>, limit: i64) -> (out: Vec<Shift>)
    requires
        order.len() == rows.len(),
        forall|i: int| 0 <= i < order.len() ==> order[i] < rows.len(),
        forall|i: int, j: int|
            0 <= i < j < order.len() ==> shift_ids(rows@)[order[i] as int] < shift_ids(
                rows@,
            )[order[j] as int],
        forall|i: int| 0 <= i < order.len() ==> shift_ids(rows@)[order[i] as int] < limit,
    ensures
        out.len() == rows.len(),
        forall|i: int|
            0 <= i < out.len() ==> (#[trigger] out@[i]).same_as(rows@[order[i] as int]),
        ascending(out@, shift_key(), limit as int),
{
    let mut out: Vec<Shift> = Vec::new();
    let mut i: usize = 0;
    while i < order.len()
        invariant
            i <= order.len(),
            out.len() == i,
            order.len() == rows.len(),
            forall|k: int| 0 <= k < order.len() ==> order[k] < rows.len(),
            forall|k: int|
                0 <= k < i ==> (#[trigger] out@[k]).same_as(rows@[order[k] as int]),
        decreases order.len() - i,
    {
        out.push(copy_shift(&rows[order[i]]));
        i += 1;
    }
    proof {
        assert forall|a: int, b: int| 0 <= a < b < out@.len() implies shift_key()(out@[a]) < shift_key()(
            out@[b],
        ) by {
            assert((out@[a]).same_as(rows@[order[a] as int]));
            assert((out@[b]).same_as(rows@[order[b] as int]));
            assert(shift_ids(rows@)[order[a] as int] < shift_ids(rows@)[order[b] as int]);
        }
        assert forall|a: int| 0 <= a < out@.len() implies shift_key()(out@[a]) < limit by {
            assert((out@[a]).same_as(rows@[order[a] as int]));
            assert(shift_ids(rows@)[order[a] as int] < limit);
        }
    }
    out
}

/// Replaces the data of the store by a backup, the rows of each table put
/// in the order of their ids. A backup in which an id occurs twice in a
/// table, or is the last number, is refused, and nothing changes. The
/// settings stay. Returns whether the backup was taken in.
#[verifier::rlimit(100)]
pub fn import_data(db: &mut Store, payload: ExportPayload) -> (r: bool)
    requires
        old(db).wf(),
    ensures
        final(db).wf(),
        r == payload.acceptable(),
        !r ==> *final(db) == *old(db),
        r ==> {
            &&& final(db).next_id == next_after(publisher_ids(payload.publishers@), payload.next_id)
            &&& final(db).publishers.len() == payload.publishers.len()
            &&& forall|i: int|
                0 <= i < payload.publishers.len() ==> (#[trigger] final(db).publishers@[i]).same_as(payload.publishers@[rising_order(publisher_ids(payload.publishers@), payload.publishers@.len())[i] as int])
            &&& final(db).next_schedule_id == next_after(schedule_ids(payload.schedules@), payload.next_schedule_id)
            &&& final(db).schedules.len() == payload.schedules.len()
            &&& forall|i: int|
                0 <= i < payload.schedules.len() ==> (#[trigger] final(db).schedules@[i]).copies(payload.schedules@[rising_order(schedule_ids(payload.schedules@), payload.schedules@.len())[i] as int], payload.schedules@[rising_order(schedule_ids(payload.schedules@), payload.schedules@.len())[i] as int].id)
            &&& final(db).next_absence_id == next_after(absence_ids(payload.absences@), payload.next_absence_id)
            &&& final(db).absences.len() == payload.absences.len()
            &&& forall|i: int|
                0 <= i < payload.absences.len() ==> payload.absences@[rising_order(absence_ids(payload.absences@), payload.absences@.len())[i] as int].matches(#[trigger] final(db).absences@[i])
            &&& final(db).next_shift_id == next_after(shift_ids(payload.shifts@), payload.next_shift_id)
            &&& final(db).shifts.len() == payload.shifts.len()
            &&& forall|i: int|
                0 <= i < payload.shifts.len() ==> (#[trigger] final(db).shifts@[i]).same_as(payload.shifts@[rising_order(shift_ids(payload.shifts@), payload.shifts@.len())[i] as int])
            &&& final(db).availability.len() == payload.availability.len()
            &&& forall|i: int|
                0 <= i < payload.availability.len() ==> #[trigger] final(db).availability@[i] == (
                    payload.availability@[i].0,
                    payload.availability@[i].1,
                )
            &&& final(db).relationships.len() == payload.relationships.len()
            &&& forall|i: int|
                0 <= i < payload.relationships.len() ==> #[trigger] final(db).relationships@[i]
                    == payload.relationships@[i].relation()
            &&& final(db).configuration == old(db).configuration
        },
{
    let mut ids: Vec<i64> = Vec::new();
    let mut i: usize = 0;
    while i < payload.publishers.len()
        invariant
            i <= payload.publishers.len(),
            ids@ == publisher_ids(payload.publishers@.take(i as int)),
        decreases payload.publishers.len() - i,
    {
        ids.push(payload.publishers[i].id);
        assert(ids@ =~= publisher_ids(payload.publishers@.take(i as int + 1)));
        i += 1;
    }
    assert(payload.publishers@.take(payload.publishers.len() as int) =~= payload.publishers@);
    let publishers_plan = match arrange(&ids, payload.next_id) {
        Some(a) => a,
        None => {
            return false;
        },
    };
    let mut ids: Vec<i64> = Vec::new();
    let mut i: usize = 0;
    while i < payload.schedules.len()
        invariant
            i <= payload.schedules.len(),
            ids@ == schedule_ids(payload.schedules@.take(i as int)),
        decreases payload.schedules.len() - i,
    {
        ids.push(payload.schedules[i].id);
        assert(ids@ =~= schedule_ids(payload.schedules@.take(i as int + 1)));
        i += 1;
    }
    assert(payload.schedules@.take(payload.schedules.len() as int) =~= payload.schedules@);
    let schedules_plan = match arrange(&ids, payload.next_schedule_id) {
        Some(a) => a,
        None => {
            return false;
        },
    };
    let mut ids: Vec<i64> = Vec::new();
    let mut i: usize = 0;
    while i < payload.absences.len()
        invariant
            i <= payload.absences.len(),
            ids@ == absence_ids(payload.absences@.take(i as int)),
        decreases payload.absences.len() - i,
    {
        ids.push(payload.absences[i].id);
        assert(ids@ =~= absence_ids(payload.absences@.take(i as int + 1)));
        i += 1;
    }
    assert(payload.absences@.take(payload.absences.len() as int) =~= payload.absences@);
    let absences_plan = match arrange(&ids, payload.next_absence_id) {
        Some(a) => a,
        None => {
            return false;
        },
    };
    let mut ids: Vec<i64> = Vec::new();
    let mut i: usize = 0;
    while i < payload.shifts.len()
        invariant
            i <= payload.shifts.len(),
            ids@ == shift_ids(payload.shifts@.take(i as int)),
        decreases payload.shifts.len() - i,
    {
        ids.push(payload.shifts[i].id);
        assert(ids@ =~= shift_ids(payload.shifts@.take(i as int + 1)));
        i += 1;
    }
    assert(payload.shifts@.take(payload.shifts.len() as int) =~= payload.shifts@);
    let shifts_plan = match arrange(&ids, payload.next_shift_id) {
        Some(a) => a,
        None => {
            return false;
        },
    };
    let publishers_rows = take_publishers(&payload.publishers, &publishers_plan.0, publishers_plan.1);
    let schedules_rows = take_schedules(&payload.schedules, &schedules_plan.0, schedules_plan.1);
    let absences_rows = take_absences(&payload.absences, &absences_plan.0, absences_plan.1);
    let shifts_rows = take_shifts(&payload.shifts, &shifts_plan.0, shifts_plan.1);
    let mut availability: Vec<(i64, i64)> = Vec::new();
    let mut i: usize = 0;
    while i < payload.availability.len()
        invariant
            i <= payload.availability.len(),
            availability.len() == i,
            forall|k: int|
                0 <= k < i ==> #[trigger] availability@[k] == (
                    payload.availability@[k].0,
                    payload.availability@[k].1,
                ),
        decreases payload.availability.len() - i,
    {
        availability.push((payload.availability[i].0, payload.availability[i].1));
        i += 1;
    }
    let mut relationships: Vec<Relation> = Vec::new();
    let mut i: usize = 0;
    while i < payload.relationships.len()
        invariant
            i <= payload.relationships.len(),
            relationships.len() == i,
            forall|k: int|
                0 <= k < i ==> #[trigger] relationships@[k]
                    == payload.relationships@[k].relation(),
        decreases payload.relationships.len() - i,
    {
        let r = &payload.relationships[i];
        relationships.push(
            Relation { a: r.0, b: r.1, kind: RelationshipKind::from_str(r.2.as_str()) },
        );
        i += 1;
    }
    db.publishers = publishers_rows;
    db.next_id = publishers_plan.1;
    db.schedules = schedules_rows;
    db.next_schedule_id = schedules_plan.1;
    db.absences = absences_rows;
    db.next_absence_id = absences_plan.1;
    db.shifts = shifts_rows;
    db.next_shift_id = shifts_plan.1;
    db.availability = availability;
    db.relationships = relationships;
    true
}

} // verus!
