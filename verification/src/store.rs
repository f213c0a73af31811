//! The entity store: publishers, schedules, availability, absences,
//! relationships and shifts, held in memory in the order of their ids.

use vstd::prelude::*;
use vstd::string::StringExecFns;
use crate::roster::{Relation, RelationshipKind};
use crate::order::{
    key_le, key_texts, sort_positions, sorted_order, sorted_order_sorts, KeyText, SortKey,
};
use crate::table::{
    ascending, lemma_ascending_unique, lemma_filter_ascending, lemma_push_ascending,
    lemma_update_ascending, retain_flagged,
};
use crate::text::{
    blank, is_blank, lemma_bytes_le_same, lowercase, lowercase_of, str_eq, str_le, text_le,
};

verus! {

/// A person who can be assigned to shifts.
#[derive(Clone, Debug, PartialEq)]
pub struct Publisher {
    pub id: i64,
    pub first_name: String,
    pub last_name: String,
    /// `Male` or `Female`.
    pub gender: String,
    pub is_shift_manager: bool,
    pub priority: i64,
}

/// A weekly place and time with its quotas.
#[derive(Clone, Debug, PartialEq)]
pub struct Schedule {
    pub id: i64,
    pub location: String,
    /// `HH:MM`.
    pub start_hour: String,
    /// `HH:MM`.
    pub end_hour: String,
    /// The name of the weekday.
    pub weekday: String,
    pub description: Option<String>,
    pub num_publishers: i64,
    pub num_shift_managers: i64,
    pub num_brothers: i64,
    pub num_sisters: i64,
}

/// Days, both ends included, on which a publisher cannot be assigned.
#[derive(Clone, Debug, PartialEq)]
pub struct Absence {
    pub id: i64,
    pub publisher_id: i64,
    /// `YYYY-MM-DD`.
    pub start_date: String,
    /// `YYYY-MM-DD`.
    pub end_date: String,
    pub description: Option<String>,
}

/// A schedule on one day with the publishers assigned to it.
#[derive(Clone, Debug, PartialEq)]
pub struct Shift {
    pub id: i64,
    /// `YYYY-MM-DD HH:MM:SS`.
    pub start_datetime: String,
    /// `YYYY-MM-DD HH:MM:SS`.
    pub end_datetime: String,
    pub location: String,
    pub publishers: Vec<i64>,
    pub warning: Option<String>,
}

/// All the data of one congregation.
#[derive(Clone, Debug, PartialEq)]
pub struct Store {
    pub publishers: Vec<Publisher>,
    pub next_id: i64,
    pub schedules: Vec<Schedule>,
    pub next_schedule_id: i64,
    /// Pairs of a publisher and a schedule that the publisher can serve.
    pub availability: Vec<(i64, i64)>,
    pub absences: Vec<Absence>,
    pub next_absence_id: i64,
    pub shifts: Vec<Shift>,
    pub next_shift_id: i64,
    /// Each pair once, the lower id first.
    pub relationships: Vec<Relation>,
    pub configuration: Option<Configuration>,
}

/// The settings of the congregation.
#[derive(Clone, Debug, PartialEq)]
pub struct Configuration {
    pub congregation_name: String,
    pub theme: String,
    /// `first_last` or `last_first`.
    pub name_order: String,
    /// `monday` or `sunday`.
    pub week_start: String,
    pub language: String,
    pub date_format: String,
}

/// The text behind an optional string.
pub open spec fn opt_text(s: Option<String>) -> Option<Seq<char>> {
    match s {
        Some(t) => Some(t@),
        None => None,
    }
}

/// The text behind an optional string slice.
pub open spec fn opt_str_text(s: Option<&str>) -> Option<Seq<char>> {
    match s {
        Some(t) => Some(t@),
        None => None,
    }
}

/// The id of a publisher.
pub open spec fn publisher_key() -> spec_fn(Publisher) -> i64 {
    |p: Publisher| p.id
}

/// The id of a schedule.
pub open spec fn schedule_key() -> spec_fn(Schedule) -> i64 {
    |s: Schedule| s.id
}

/// The id of an absence.
pub open spec fn absence_key() -> spec_fn(Absence) -> i64 {
    |a: Absence| a.id
}

/// The id of a shift.
pub open spec fn shift_key() -> spec_fn(Shift) -> i64 {
    |s: Shift| s.id
}

impl Publisher {
    /// Whether the record holds exactly these values.
    pub open spec fn holds(
        self,
        id: i64,
        first: Seq<char>,
        last: Seq<char>,
        gender: Seq<char>,
        is_shift_manager: bool,
        priority: i64,
    ) -> bool {
        &&& self.id == id
        &&& self.first_name@ == first
        &&& self.last_name@ == last
        &&& self.gender@ == gender
        &&& self.is_shift_manager == is_shift_manager
        &&& self.priority == priority
    }
}

impl Schedule {
    /// Whether `self` holds what `other` holds, under the id `id`.
    pub open spec fn copies(self, other: Schedule, id: i64) -> bool {
        &&& self.id == id
        &&& self.location@ == other.location@
        &&& self.start_hour@ == other.start_hour@
        &&& self.end_hour@ == other.end_hour@
        &&& self.weekday@ == other.weekday@
        &&& opt_text(self.description) == opt_text(other.description)
        &&& self.num_publishers == other.num_publishers
        &&& self.num_shift_managers == other.num_shift_managers
        &&& self.num_brothers == other.num_brothers
        &&& self.num_sisters == other.num_sisters
    }
}

impl Absence {
    /// Whether the record holds exactly these values.
    pub open spec fn holds(
        self,
        id: i64,
        publisher_id: i64,
        start: Seq<char>,
        end: Seq<char>,
        description: Option<Seq<char>>,
    ) -> bool {
        &&& self.id == id
        &&& self.publisher_id == publisher_id
        &&& self.start_date@ == start
        &&& self.end_date@ == end
        &&& opt_text(self.description) == description
    }

    /// Whether the absence of `publisher_id` covers the day written `day`.
    pub open spec fn covers(self, publisher_id: i64, day: Seq<char>) -> bool {
        self.publisher_id == publisher_id && text_le(self.start_date@, day) && text_le(
            day,
            self.end_date@,
        )
    }
}

impl Shift {
    /// Whether the record holds exactly these values.
    pub open spec fn holds(
        self,
        id: i64,
        start: Seq<char>,
        end: Seq<char>,
        location: Seq<char>,
        publishers: Seq<i64>,
        warning: Option<Seq<char>>,
    ) -> bool {
        &&& self.id == id
        &&& self.start_datetime@ == start
        &&& self.end_datetime@ == end
        &&& self.location@ == location
        &&& self.publishers@ == publishers
        &&& opt_text(self.warning) == warning
    }

    /// Whether the shift lies within the span from `start` to `end`.
    pub open spec fn within(self, start: Seq<char>, end: Seq<char>) -> bool {
        text_le(start, self.start_datetime@) && text_le(self.end_datetime@, end)
    }
}

impl Store {
    /// Whether the store is in order: in each table the ids rise from row
    /// to row and lie below the next id to be given, which is at least 1.
    pub open spec fn wf(self) -> bool {
        &&& 1 <= self.next_id
        &&& 1 <= self.next_schedule_id
        &&& 1 <= self.next_absence_id
        &&& 1 <= self.next_shift_id
        &&& ascending(self.publishers@, publisher_key(), self.next_id as int)
        &&& ascending(self.schedules@, schedule_key(), self.next_schedule_id as int)
        &&& ascending(self.absences@, absence_key(), self.next_absence_id as int)
        &&& ascending(self.shifts@, shift_key(), self.next_shift_id as int)
    }

    /// An empty store.
    pub fn new() -> (db: Store)
        ensures
            db.wf(),
            db.publishers@.len() == 0,
            db.schedules@.len() == 0,
            db.availability@.len() == 0,
            db.absences@.len() == 0,
            db.shifts@.len() == 0,
            db.relationships@.len() == 0,
            db.next_id == 1,
            db.next_schedule_id == 1,
            db.next_absence_id == 1,
            db.next_shift_id == 1,
            db.configuration is None,
    {
        Store {
            publishers: Vec::new(),
            next_id: 1,
            schedules: Vec::new(),
            next_schedule_id: 1,
            availability: Vec::new(),
            absences: Vec::new(),
            next_absence_id: 1,
            shifts: Vec::new(),
            next_shift_id: 1,
            relationships: Vec::new(),
            configuration: None,
        }
    }
}

/// An owned copy of an optional text.
pub fn own_opt(s: Option<&str>) -> (r: Option<String>)
    ensures
        opt_text(r) == opt_str_text(s),
{
    match s {
        Some(t) => Some(String::from_str(t)),
        None => None,
    }
}

/// A copy of an optional string.
pub fn copy_opt(s: &Option<String>) -> (r: Option<String>)
    ensures
        opt_text(r) == opt_text(*s),
{
    match s {
        Some(t) => Some(t.clone()),
        None => None,
    }
}

/// The test that a publisher has another id than `id`.
pub open spec fn publisher_is_not(id: i64) -> spec_fn(Publisher) -> bool {
    |p: Publisher| p.id != id
}

/// The test that an availability pair is of another publisher than `id`.
pub open spec fn pair_not_of_publisher(id: i64) -> spec_fn((i64, i64)) -> bool {
    |a: (i64, i64)| a.0 != id
}

/// The test that an availability pair is of another schedule than `id`.
pub open spec fn pair_not_of_schedule(id: i64) -> spec_fn((i64, i64)) -> bool {
    |a: (i64, i64)| a.1 != id
}

/// The test that an absence is of another publisher than `id`.
pub open spec fn absence_not_of(id: i64) -> spec_fn(Absence) -> bool {
    |a: Absence| a.publisher_id != id
}

/// The test that an absence has another id than `id`.
pub open spec fn absence_is_not(id: i64) -> spec_fn(Absence) -> bool {
    |a: Absence| a.id != id
}

/// The test that an absence ends on the day written `today` or later.
pub open spec fn absence_lasts(today: Seq<char>) -> spec_fn(Absence) -> bool {
    |a: Absence| text_le(today, a.end_date@)
}

/// The test that a schedule has another id than `id`.
pub open spec fn schedule_is_not(id: i64) -> spec_fn(Schedule) -> bool {
    |s: Schedule| s.id != id
}

/// The test that a shift has another id than `id`.
pub open spec fn shift_is_not(id: i64) -> spec_fn(Shift) -> bool {
    |s: Shift| s.id != id
}

/// The test that a shift does not lie within the span from `start` to `end`.
pub open spec fn shift_outside(start: Seq<char>, end: Seq<char>) -> spec_fn(Shift) -> bool {
    |s: Shift| !s.within(start, end)
}

/// The test that a relation is not the pair `(x, y)`.
pub open spec fn relation_is_not(x: i64, y: i64) -> spec_fn(Relation) -> bool {
    |r: Relation| !(r.a == x && r.b == y)
}

fn drop_availability_of_publisher(rows: &mut Vec<(i64, i64)>, id: i64)
    ensures
        final(rows)@ == old(rows)@.filter(pair_not_of_publisher(id)),
{
    let mut flags: Vec<bool> = Vec::new();
    let mut i: usize = 0;
    while i < rows.len()
        invariant
            i <= rows.len(),
            flags.len() == i,
            forall|k: int| 0 <= k < i ==> flags[k] == ((#[trigger] rows@[k]).0 != id),
        decreases rows.len() - i,
    {
        flags.push(rows[i].0 != id);
        i += 1;
    }
    retain_flagged(rows, &flags, Ghost(pair_not_of_publisher(id)));
}

fn drop_absences_of_publisher(rows: &mut Vec<Absence>, id: i64, Ghost(limit): Ghost<int>)
    requires
        ascending(old(rows)@, absence_key(), limit),
    ensures
        final(rows)@ == old(rows)@.filter(absence_not_of(id)),
        ascending(final(rows)@, absence_key(), limit),
{
    let mut flags: Vec<bool> = Vec::new();
    let mut i: usize = 0;
    while i < rows.len()
        invariant
            i <= rows.len(),
            flags.len() == i,
            forall|k: int| 0 <= k < i ==> flags[k] == ((#[trigger] rows@[k]).publisher_id != id),
        decreases rows.len() - i,
    {
        flags.push(rows[i].publisher_id != id);
        i += 1;
    }
    proof {
        lemma_filter_ascending(rows@, absence_not_of(id), absence_key(), limit);
    }
    retain_flagged(rows, &flags, Ghost(absence_not_of(id)));
}

/// Adds a publisher and returns the id given to it.
pub fn create_publisher(
    db: &mut Store,
    first: &str,
    last: &str,
    gender: &str,
    is_shift_manager: bool,
    priority: i64,
) -> (id: i64)
    requires
        old(db).wf(),
        old(db).next_id < i64::MAX,
    ensures
        final(db).wf(),
        id == old(db).next_id,
        final(db).next_id == id + 1,
        final(db).publishers@.len() == old(db).publishers@.len() + 1,
        final(db).publishers@.drop_last() == old(db).publishers@,
        final(db).publishers@.last().holds(
            id,
            first@,
            last@,
            gender@,
            is_shift_manager,
            priority,
        ),
        *final(db) == (Store {
            publishers: final(db).publishers,
            next_id: final(db).next_id,
            ..*old(db)
        }),
{
    let id = db.next_id;
    db.next_id = id + 1;
    db.publishers.push(
        Publisher {
            id,
            first_name: String::from_str(first),
            last_name: String::from_str(last),
            gender: String::from_str(gender),
            is_shift_manager,
            priority,
        },
    );
    assert(final(db).publishers@.drop_last() =~= old(db).publishers@);
    id
}

/// Removes the publisher `id`, with its availability and its absences.
pub fn delete_publisher(db: &mut Store, id: i64)
    requires
        old(db).wf(),
    ensures
        final(db).wf(),
        final(db).publishers@ == old(db).publishers@.filter(publisher_is_not(id)),
        final(db).availability@ == old(db).availability@.filter(pair_not_of_publisher(id)),
        final(db).absences@ == old(db).absences@.filter(absence_not_of(id)),
        *final(db) == (Store {
            publishers: final(db).publishers,
            availability: final(db).availability,
            absences: final(db).absences,
            ..*old(db)
        }),
{
    let mut flags: Vec<bool> = Vec::new();
    let mut i: usize = 0;
    while i < db.publishers.len()
        invariant
            i <= db.publishers.len(),
            flags.len() == i,
            forall|k: int| 0 <= k < i ==> flags[k] == ((#[trigger] db.publishers@[k]).id != id),
        decreases db.publishers.len() - i,
    {
        flags.push(db.publishers[i].id != id);
        i += 1;
    }
    proof {
        lemma_filter_ascending(
            db.publishers@,
            publisher_is_not(id),
            publisher_key(),
            db.next_id as int,
        );
    }
    retain_flagged(&mut db.publishers, &flags, Ghost(publisher_is_not(id)));
    drop_availability_of_publisher(&mut db.availability, id);
    drop_absences_of_publisher(&mut db.absences, id, Ghost(db.next_absence_id as int));
}

/// Gives the first publisher with the id `id` these values; without such a
/// publisher nothing changes.
#[verifier::rlimit(60)]
pub fn update_publisher(
    db: &mut Store,
    id: i64,
    first: &str,
    last: &str,
    gender: &str,
    is_shift_manager: bool,
    priority: i64,
)
    requires
        old(db).wf(),
    ensures
        final(db).wf(),
        final(db).publishers@.len() == old(db).publishers@.len(),
        forall|i: int|
            0 <= i < old(db).publishers@.len() ==> if old(db).publishers@[i].id == id {
                (#[trigger] final(db).publishers@[i]).holds(
                    id,
                    first@,
                    last@,
                    gender@,
                    is_shift_manager,
                    priority,
                )
            } else {
                final(db).publishers@[i] == old(db).publishers@[i]
            },
        *final(db) == (Store { publishers: final(db).publishers, ..*old(db) }),
{
    let mut i: usize = 0;
    while i < db.publishers.len()
        invariant
            i <= db.publishers.len(),
            *db == *old(db),
            db.wf(),
            forall|k: int| 0 <= k < i ==> (#[trigger] db.publishers@[k]).id != id,
        decreases db.publishers.len() - i,
    {
        if db.publishers[i].id == id {
            let p = Publisher {
                id,
                first_name: String::from_str(first),
                last_name: String::from_str(last),
                gender: String::from_str(gender),
                is_shift_manager,
                priority,
            };
            db.publishers.set(i, p);
            proof {
                let old_rows = old(db).publishers@;
                let rows = db.publishers@;
                assert forall|a: int, b: int| 0 <= a < b < rows.len() implies publisher_key()(
                    rows[a],
                ) < publisher_key()(rows[b]) by {
                    assert(publisher_key()(old_rows[a]) < publisher_key()(old_rows[b]));
                }
                assert forall|a: int| 0 <= a < rows.len() implies publisher_key()(rows[a])
                    < db.next_id by {
                    assert(publisher_key()(old_rows[a]) < db.next_id);
                }
                assert forall|j: int| 0 <= j < old_rows.len() && j != i implies old_rows[j].id
                    != id by {
                    if j > i {
                        assert(publisher_key()(old_rows[i as int]) < publisher_key()(old_rows[j]));
                    }
                }
            }
            return ;
        }
        i += 1;
    }
}

/// A copy of the ids in a slice.
pub fn copy_slice(ids: &[i64]) -> (r: Vec<i64>)
    ensures
        r@ == ids@,
{
    let mut r: Vec<i64> = Vec::new();
    let mut i: usize = 0;
    while i < ids.len()
        invariant
            i <= ids.len(),
            r@ == ids@.take(i as int),
        decreases ids.len() - i,
    {
        r.push(ids[i]);
        assert(ids@.take(i as int).push(ids@[i as int]) =~= ids@.take(i as int + 1));
        i += 1;
    }
    assert(ids@.take(ids.len() as int) =~= ids@);
    r
}

/// A copy of a schedule under the id `id`.
pub fn copy_schedule(s: &Schedule, id: i64) -> (r: Schedule)
    ensures
        r.copies(*s, id),
{
    Schedule {
        id,
        location: s.location.clone(),
        start_hour: s.start_hour.clone(),
        end_hour: s.end_hour.clone(),
        weekday: s.weekday.clone(),
        description: copy_opt(&s.description),
        num_publishers: s.num_publishers,
        num_shift_managers: s.num_shift_managers,
        num_brothers: s.num_brothers,
        num_sisters: s.num_sisters,
    }
}

/// A copy of an absence.
pub fn copy_absence(a: &Absence) -> (r: Absence)
    ensures
        r.holds(a.id, a.publisher_id, a.start_date@, a.end_date@, opt_text(a.description)),
{
    Absence {
        id: a.id,
        publisher_id: a.publisher_id,
        start_date: a.start_date.clone(),
        end_date: a.end_date.clone(),
        description: copy_opt(&a.description),
    }
}

/// A copy of a shift.
pub fn copy_shift(s: &Shift) -> (r: Shift)
    ensures
        r.holds(
            s.id,
            s.start_datetime@,
            s.end_datetime@,
            s.location@,
            s.publishers@,
            opt_text(s.warning),
        ),
{
    Shift {
        id: s.id,
        start_datetime: s.start_datetime.clone(),
        end_datetime: s.end_datetime.clone(),
        location: s.location.clone(),
        publishers: crate::fairness::copy_ids(&s.publishers),
        warning: copy_opt(&s.warning),
    }
}

/// The position of the schedule with the id `id`.
fn find_schedule(rows: &Vec<Schedule>, id: i64) -> (r: Option<usize>)
    ensures
        match r {
            Some(i) => i < rows.len() && rows@[i as int].id == id,
            None => forall|k: int| 0 <= k < rows.len() ==> (#[trigger] rows@[k]).id != id,
        },
{
    let mut i: usize = 0;
    while i < rows.len()
        invariant
            i <= rows.len(),
            forall|k: int| 0 <= k < i ==> (#[trigger] rows@[k]).id != id,
        decreases rows.len() - i,
    {
        if rows[i].id == id {
            return Some(i);
        }
        i += 1;
    }
    None
}

/// The position of the absence with the id `id`.
fn find_absence(rows: &Vec<Absence>, id: i64) -> (r: Option<usize>)
    ensures
        match r {
            Some(i) => i < rows.len() && rows@[i as int].id == id,
            None => forall|k: int| 0 <= k < rows.len() ==> (#[trigger] rows@[k]).id != id,
        },
{
    let mut i: usize = 0;
    while i < rows.len()
        invariant
            i <= rows.len(),
            forall|k: int| 0 <= k < i ==> (#[trigger] rows@[k]).id != id,
        decreases rows.len() - i,
    {
        if rows[i].id == id {
            return Some(i);
        }
        i += 1;
    }
    None
}

/// The position of the shift with the id `id`.
fn find_shift(rows: &Vec<Shift>, id: i64) -> (r: Option<usize>)
    ensures
        match r {
            Some(i) => i < rows.len() && rows@[i as int].id == id,
            None => forall|k: int| 0 <= k < rows.len() ==> (#[trigger] rows@[k]).id != id,
        },
{
    let mut i: usize = 0;
    while i < rows.len()
        invariant
            i <= rows.len(),
            forall|k: int| 0 <= k < i ==> (#[trigger] rows@[k]).id != id,
        decreases rows.len() - i,
    {
        if rows[i].id == id {
            return Some(i);
        }
        i += 1;
    }
    None
}

// ---------------------------------------------------------------- schedules

/// What schedules are sorted by: the weekday's name, then the start hour.
pub open spec fn schedule_sort_keys(rows: Seq<Schedule>) -> Seq<KeyText> {
    rows.map_values(|s: Schedule| KeyText { first: s.weekday@, second: s.start_hour@ })
}

/// The schedules, sorted by the name of the weekday and then by the start
/// hour.
#[verifier::rlimit(60)]
pub fn list_schedules(db: &Store) -> (out: Vec<Schedule>)
    ensures
        out.len() == db.schedules.len(),
        forall|i: int|
            0 <= i < out.len() ==> {
                let from = sorted_order(
                    schedule_sort_keys(db.schedules@),
                    db.schedules@.len(),
                )[i];
                from < db.schedules.len() && (#[trigger] out@[i]).copies(
                    db.schedules@[from as int],
                    db.schedules@[from as int].id,
                )
            },
{
    let mut keys: Vec<SortKey> = Vec::new();
    let mut i: usize = 0;
    while i < db.schedules.len()
        invariant
            i <= db.schedules.len(),
            keys.len() == i,
            key_texts(keys@) == schedule_sort_keys(db.schedules@.take(i as int)),
        decreases db.schedules.len() - i,
    {
        let ghost before = key_texts(keys@);
        let key = SortKey {
            first: db.schedules[i].weekday.clone(),
            second: db.schedules[i].start_hour.clone(),
        };
        keys.push(key);
        proof {
            let now = key_texts(keys@);
            let want = schedule_sort_keys(db.schedules@.take(i as int + 1));
            assert(now.len() == want.len());
            assert forall|j: int| 0 <= j < now.len() implies now[j] == want[j] by {
                if j < i {
                    assert(now[j] == before[j]);
                    assert(db.schedules@.take(i as int)[j] == db.schedules@.take(i as int + 1)[j]);
                } else {
                    assert(now[j] == key@);
                }
            }
            assert(now =~= want);
        }
        i += 1;
    }
    assert(db.schedules@.take(db.schedules.len() as int) =~= db.schedules@);
    let order = sort_positions(&keys);
    let mut out: Vec<Schedule> = Vec::new();
    let mut j: usize = 0;
    while j < order.len()
        invariant
            j <= order.len(),
            out.len() == j,
            order.len() == db.schedules.len(),
            forall|i: int| 0 <= i < order.len() ==> order[i] < db.schedules.len(),
            forall|i: int|
                0 <= i < j ==> (#[trigger] out@[i]).copies(
                    db.schedules@[order@[i] as int],
                    db.schedules@[order@[i] as int].id,
                ),
        decreases order.len() - j,
    {
        let s = &db.schedules[order[j]];
        out.push(copy_schedule(s, s.id));
        j += 1;
    }
    out
}

/// Why the store refuses a schedule.
#[derive(Clone, Copy, Debug, PartialEq, Eq, Structural)]
pub enum ScheduleError {
    /// The schedule asks for more managers, brothers and sisters together
    /// than it has places.
    CountsExceedPlaces,
}

/// Whether a schedule asks for no more managers, brothers and sisters
/// together than it has places.
pub open spec fn counts_fit(s: Schedule) -> bool {
    s.num_shift_managers + s.num_brothers + s.num_sisters <= s.num_publishers
}

/// Checks that a schedule asks for no more managers, brothers and sisters
/// together than it has places.
pub fn validate_schedule_counts(s: &Schedule) -> (r: Result<(), ScheduleError>)
    ensures
        r is Ok == counts_fit(*s),
{
    let sum: i128 = s.num_shift_managers as i128 + s.num_brothers as i128 + s.num_sisters as i128;
    if sum <= s.num_publishers as i128 {
        Ok(())
    } else {
        Err(ScheduleError::CountsExceedPlaces)
    }
}

/// Adds a copy of `s` under a new id and returns that id. A schedule that
/// asks for more managers, brothers and sisters than it has places is
/// refused, and nothing changes.
pub fn create_schedule(db: &mut Store, s: &Schedule) -> (r: Result<i64, ScheduleError>)
    requires
        old(db).wf(),
        old(db).next_schedule_id < i64::MAX,
    ensures
        final(db).wf(),
        !counts_fit(*s) ==> r == Err::<i64, ScheduleError>(ScheduleError::CountsExceedPlaces)
            && *final(db) == *old(db),
        counts_fit(*s) ==> {
            &&& r == Ok::<i64, ScheduleError>(old(db).next_schedule_id)
            &&& final(db).next_schedule_id == old(db).next_schedule_id + 1
            &&& final(db).schedules@.len() == old(db).schedules@.len() + 1
            &&& final(db).schedules@.drop_last() == old(db).schedules@
            &&& final(db).schedules@.last().copies(*s, old(db).next_schedule_id)
            &&& *final(db) == (Store {
                schedules: final(db).schedules,
                next_schedule_id: final(db).next_schedule_id,
                ..*old(db)
            })
        },
{
    match validate_schedule_counts(s) {
        Err(e) => {
            return Err(e);
        },
        Ok(()) => {},
    }
    let id = db.next_schedule_id;
    db.next_schedule_id = id + 1;
    let row = copy_schedule(s, id);
    proof {
        lemma_push_ascending(old(db).schedules@, row, schedule_key(), id as int);
    }
    db.schedules.push(row);
    assert(final(db).schedules@.drop_last() =~= old(db).schedules@);
    Ok(id)
}

/// Replaces the schedule that has the id of `s` by a copy of `s`; without
/// such a schedule nothing changes. A schedule that asks for more managers,
/// brothers and sisters than it has places is refused, and nothing changes.
pub fn update_schedule(db: &mut Store, s: &Schedule) -> (r: Result<(), ScheduleError>)
    requires
        old(db).wf(),
    ensures
        final(db).wf(),
        !counts_fit(*s) ==> r == Err::<(), ScheduleError>(ScheduleError::CountsExceedPlaces)
            && *final(db) == *old(db),
        counts_fit(*s) ==> {
            &&& r is Ok
            &&& final(db).schedules@.len() == old(db).schedules@.len()
            &&& forall|i: int|
                0 <= i < old(db).schedules@.len() ==> if old(db).schedules@[i].id == s.id {
                    (#[trigger] final(db).schedules@[i]).copies(*s, s.id)
                } else {
                    final(db).schedules@[i] == old(db).schedules@[i]
                }
            &&& *final(db) == (Store { schedules: final(db).schedules, ..*old(db) })
        },
{
    match validate_schedule_counts(s) {
        Err(e) => {
            return Err(e);
        },
        Ok(()) => {},
    }
    match find_schedule(&db.schedules, s.id) {
        Some(i) => {
            let row = copy_schedule(s, s.id);
            proof {
                lemma_update_ascending(
                    db.schedules@,
                    i as int,
                    row,
                    schedule_key(),
                    db.next_schedule_id as int,
                );
                assert forall|j: int| 0 <= j < db.schedules@.len() && j != i implies (
                #[trigger] db.schedules@[j]).id != s.id by {
                    if db.schedules@[j].id == s.id {
                        lemma_ascending_unique(
                            db.schedules@,
                            schedule_key(),
                            db.next_schedule_id as int,
                            i as int,
                            j,
                        );
                    }
                }
            }
            db.schedules.set(i, row);
        },
        None => {},
    }
    Ok(())
}

/// Removes the schedule `id`, with the availability for it.
pub fn delete_schedule(db: &mut Store, id: i64)
    requires
        old(db).wf(),
    ensures
        final(db).wf(),
        final(db).schedules@ == old(db).schedules@.filter(schedule_is_not(id)),
        final(db).availability@ == old(db).availability@.filter(pair_not_of_schedule(id)),
        *final(db) == (Store {
            schedules: final(db).schedules,
            availability: final(db).availability,
            ..*old(db)
        }),
{
    let mut flags: Vec<bool> = Vec::new();
    let mut i: usize = 0;
    while i < db.schedules.len()
        invariant
            i <= db.schedules.len(),
            flags.len() == i,
            forall|k: int| 0 <= k < i ==> flags[k] == ((#[trigger] db.schedules@[k]).id != id),
        decreases db.schedules.len() - i,
    {
        flags.push(db.schedules[i].id != id);
        i += 1;
    }
    proof {
        lemma_filter_ascending(
            db.schedules@,
            schedule_is_not(id),
            schedule_key(),
            db.next_schedule_id as int,
        );
    }
    retain_flagged(&mut db.schedules, &flags, Ghost(schedule_is_not(id)));
    let mut flags: Vec<bool> = Vec::new();
    let mut i: usize = 0;
    while i < db.availability.len()
        invariant
            i <= db.availability.len(),
            flags.len() == i,
            forall|k: int| 0 <= k < i ==> flags[k] == ((#[trigger] db.availability@[k]).1 != id),
        decreases db.availability.len() - i,
    {
        flags.push(db.availability[i].1 != id);
        i += 1;
    }
    retain_flagged(&mut db.availability, &flags, Ghost(pair_not_of_schedule(id)));
}

// ------------------------------------------------------------- availability

/// The schedules that the pairs name for the publisher `publisher_id`.
pub open spec fn schedules_of(pairs: Seq<(i64, i64)>, publisher_id: i64) -> Seq<i64>
    decreases pairs.len(),
{
    if pairs.len() == 0 {
        Seq::empty()
    } else if pairs.last().0 == publisher_id {
        schedules_of(pairs.drop_last(), publisher_id).push(pairs.last().1)
    } else {
        schedules_of(pairs.drop_last(), publisher_id)
    }
}

/// The publishers that the pairs name for the schedule `schedule_id`.
pub open spec fn publishers_of(pairs: Seq<(i64, i64)>, schedule_id: i64) -> Seq<i64>
    decreases pairs.len(),
{
    if pairs.len() == 0 {
        Seq::empty()
    } else if pairs.last().1 == schedule_id {
        publishers_of(pairs.drop_last(), schedule_id).push(pairs.last().0)
    } else {
        publishers_of(pairs.drop_last(), schedule_id)
    }
}

/// The pairs of the publisher `publisher_id` with each of `schedule_ids`.
pub open spec fn pairs_for(publisher_id: i64, schedule_ids: Seq<i64>) -> Seq<(i64, i64)> {
    schedule_ids.map_values(|s: i64| (publisher_id, s))
}

/// The schedules that `publisher_id` can serve, in the order stored.
pub fn list_availability_for_publisher(db: &Store, publisher_id: i64) -> (out: Vec<i64>)
    ensures
        out@ == schedules_of(db.availability@, publisher_id),
{
    let mut out: Vec<i64> = Vec::new();
    let mut i: usize = 0;
    while i < db.availability.len()
        invariant
            i <= db.availability.len(),
            out@ == schedules_of(db.availability@.take(i as int), publisher_id),
        decreases db.availability.len() - i,
    {
        assert(db.availability@.take(i as int + 1).drop_last() =~= db.availability@.take(
            i as int,
        ));
        if db.availability[i].0 == publisher_id {
            out.push(db.availability[i].1);
        }
        i += 1;
    }
    assert(db.availability@.take(db.availability.len() as int) =~= db.availability@);
    out
}

/// Makes `schedule_ids` the schedules that `publisher_id` can serve.
pub fn set_publisher_availability(db: &mut Store, publisher_id: i64, schedule_ids: &[i64])
    ensures
        final(db).availability@ == old(db).availability@.filter(
            pair_not_of_publisher(publisher_id),
        ) + pairs_for(publisher_id, schedule_ids@),
        *final(db) == (Store { availability: final(db).availability, ..*old(db) }),
{
    drop_availability_of_publisher(&mut db.availability, publisher_id);
    let ghost kept = db.availability@;
    let mut i: usize = 0;
    while i < schedule_ids.len()
        invariant
            i <= schedule_ids.len(),
            db.availability@ == kept + pairs_for(publisher_id, schedule_ids@.take(i as int)),
            *db == (Store { availability: db.availability, ..*old(db) }),
        decreases schedule_ids.len() - i,
    {
        db.availability.push((publisher_id, schedule_ids[i]));
        assert(db.availability@ =~= kept + pairs_for(
            publisher_id,
            schedule_ids@.take(i as int + 1),
        ));
        i += 1;
    }
    assert(schedule_ids@.take(schedule_ids.len() as int) =~= schedule_ids@);
}

/// The publishers that can serve the schedule `schedule_id`, in the order
/// stored.
#[verifier::rlimit(60)]
pub fn list_publishers_for_schedule(db: &Store, schedule_id: i64) -> (out: Vec<i64>)
    ensures
        out@ == publishers_of(db.availability@, schedule_id),
{
    let mut out: Vec<i64> = Vec::new();
    let mut i: usize = 0;
    while i < db.availability.len()
        invariant
            i <= db.availability.len(),
            out@ == publishers_of(db.availability@.take(i as int), schedule_id),
        decreases db.availability.len() - i,
    {
        assert(db.availability@.take(i as int + 1).drop_last() =~= db.availability@.take(
            i as int,
        ));
        if db.availability[i].1 == schedule_id {
            out.push(db.availability[i].0);
        }
        i += 1;
    }
    assert(db.availability@.take(db.availability.len() as int) =~= db.availability@);
    out
}

// ------------------------------------------------------------ relationships

impl RelationshipKind {
    /// The word that the kind is stored as.
    pub open spec fn word(self) -> Seq<char> {
        match self {
            RelationshipKind::Mandatory => "mandatory"@,
            RelationshipKind::Recommended => "recommended"@,
        }
    }

    /// The kind that a stored word stands for: mandatory for `mandatory`,
    /// recommended for every other word.
    pub open spec fn of_word(word: Seq<char>) -> RelationshipKind {
        if word == "mandatory"@ {
            RelationshipKind::Mandatory
        } else {
            RelationshipKind::Recommended
        }
    }

    /// The word that the kind is stored as.
    pub fn as_str(&self) -> (r: &'static str)
        ensures
            r@ == self.word(),
    {
        match self {
            RelationshipKind::Mandatory => "mandatory",
            RelationshipKind::Recommended => "recommended",
        }
    }

    /// The kind that a stored word stands for.
    pub fn from_str(s: &str) -> (r: RelationshipKind)
        ensures
            r == RelationshipKind::of_word(s@),
    {
        if str_eq(s, "mandatory") {
            RelationshipKind::Mandatory
        } else {
            RelationshipKind::Recommended
        }
    }

    /// The kind that a stored word stands for.
    pub fn from_db(s: String) -> (r: RelationshipKind)
        ensures
            r == RelationshipKind::of_word(s@),
    {
        RelationshipKind::from_str(s.as_str())
    }
}

/// The lower of two ids.
pub open spec fn lower(a: i64, b: i64) -> i64 {
    if a < b {
        a
    } else {
        b
    }
}

/// The higher of two ids.
pub open spec fn higher(a: i64, b: i64) -> i64 {
    if a < b {
        b
    } else {
        a
    }
}

/// Whether some relation is the pair `(x, y)`.
pub open spec fn has_pair(rels: Seq<Relation>, x: i64, y: i64) -> bool {
    exists|k: int| 0 <= k < rels.len() && (#[trigger] rels[k]).a == x && rels[k].b == y
}

/// What the relations tell of `p`: each partner with the kind of the
/// relationship, in the order stored.
pub open spec fn adjacency(rels: Seq<Relation>, p: i64) -> Seq<(i64, RelationshipKind)>
    decreases rels.len(),
{
    if rels.len() == 0 {
        Seq::empty()
    } else {
        let front = adjacency(rels.drop_last(), p);
        let r = rels.last();
        if r.a == p {
            front.push((r.b, r.kind))
        } else if r.b == p {
            front.push((r.a, r.kind))
        } else {
            front
        }
    }
}

/// Sets the relationship between two different publishers `a` and `b` to
/// `kind`. A pair of one publisher with itself is ignored.
#[verifier::rlimit(60)]
pub fn add_relationship(db: &mut Store, a: i64, b: i64, kind: RelationshipKind)
    ensures
        a == b ==> *final(db) == *old(db),
        a != b && !has_pair(old(db).relationships@, lower(a, b), higher(a, b))
            ==> final(db).relationships@ == old(db).relationships@.push(
            Relation { a: lower(a, b), b: higher(a, b), kind },
        ),
        a != b && has_pair(old(db).relationships@, lower(a, b), higher(a, b)) ==> {
            &&& final(db).relationships@.len() == old(db).relationships@.len()
            &&& forall|i: int|
                0 <= i < old(db).relationships@.len() ==> #[trigger] final(db).relationships@[i]
                    == if old(db).relationships@[i].a == lower(a, b) && old(
                    db,
                ).relationships@[i].b == higher(a, b) && forall|j: int|
                    0 <= j < i ==> !((#[trigger] old(db).relationships@[j]).a == lower(a, b) && old(
                        db,
                    ).relationships@[j].b == higher(a, b)) {
                    Relation { a: lower(a, b), b: higher(a, b), kind }
                } else {
                    old(db).relationships@[i]
                }
        },
        *final(db) == (Store { relationships: final(db).relationships, ..*old(db) }),
{
    if a == b {
        return ;
    }
    let x = if a < b {
        a
    } else {
        b
    };
    let y = if a < b {
        b
    } else {
        a
    };
    let mut i: usize = 0;
    while i < db.relationships.len()
        invariant
            i <= db.relationships.len(),
            *db == *old(db),
            x == lower(a, b),
            y == higher(a, b),
            a != b,
            forall|k: int|
                0 <= k < i ==> !((#[trigger] db.relationships@[k]).a == x && db.relationships@[k].b
                    == y),
        decreases db.relationships.len() - i,
    {
        if db.relationships[i].a == x && db.relationships[i].b == y {
            db.relationships.set(i, Relation { a: x, b: y, kind });
            return ;
        }
        i += 1;
    }
    db.relationships.push(Relation { a: x, b: y, kind });
}

/// Removes the relationship between `a` and `b`.
pub fn remove_relationship(db: &mut Store, a: i64, b: i64)
    ensures
        a == b ==> *final(db) == *old(db),
        a != b ==> final(db).relationships@ == old(db).relationships@.filter(
            relation_is_not(lower(a, b), higher(a, b)),
        ),
        *final(db) == (Store { relationships: final(db).relationships, ..*old(db) }),
{
    if a == b {
        return ;
    }
    let x = if a < b {
        a
    } else {
        b
    };
    let y = if a < b {
        b
    } else {
        a
    };
    let mut flags: Vec<bool> = Vec::new();
    let mut i: usize = 0;
    while i < db.relationships.len()
        invariant
            i <= db.relationships.len(),
            flags.len() == i,
            forall|k: int|
                0 <= k < i ==> flags[k] == !((#[trigger] db.relationships@[k]).a == x
                    && db.relationships@[k].b == y),
        decreases db.relationships.len() - i,
    {
        flags.push(!(db.relationships[i].a == x && db.relationships[i].b == y));
        i += 1;
    }
    retain_flagged(&mut db.relationships, &flags, Ghost(relation_is_not(x, y)));
}

/// The partners of `p` with the kinds of the relationships.
pub fn list_relationships_for_publisher(db: &Store, p: i64) -> (out: Vec<(i64, RelationshipKind)>)
    ensures
        out@ == adjacency(db.relationships@, p),
{
    let mut out: Vec<(i64, RelationshipKind)> = Vec::new();
    let mut i: usize = 0;
    while i < db.relationships.len()
        invariant
            i <= db.relationships.len(),
            out@ == adjacency(db.relationships@.take(i as int), p),
        decreases db.relationships.len() - i,
    {
        assert(db.relationships@.take(i as int + 1).drop_last() =~= db.relationships@.take(
            i as int,
        ));
        let r = db.relationships[i];
        if r.a == p {
            out.push((r.b, r.kind));
        } else if r.b == p {
            out.push((r.a, r.kind));
        }
        i += 1;
    }
    assert(db.relationships@.take(db.relationships.len() as int) =~= db.relationships@);
    out
}

// ----------------------------------------------------------------- absences

/// Whether some absence of `publisher_id` covers the day written `day`.
pub open spec fn absent_on(rows: Seq<Absence>, publisher_id: i64, day: Seq<char>) -> bool {
    exists|k: int| 0 <= k < rows.len() && (#[trigger] rows[k]).covers(publisher_id, day)
}

impl Absence {
    /// Whether `self` holds what `other` holds.
    pub open spec fn same_as(self, other: Absence) -> bool {
        self.holds(
            other.id,
            other.publisher_id,
            other.start_date@,
            other.end_date@,
            opt_text(other.description),
        )
    }
}

impl Shift {
    /// Whether `self` holds what `other` holds.
    pub open spec fn same_as(self, other: Shift) -> bool {
        self.holds(
            other.id,
            other.start_datetime@,
            other.end_datetime@,
            other.location@,
            other.publishers@,
            opt_text(other.warning),
        )
    }
}

/// All absences, in the order stored.
pub fn list_absences(db: &Store) -> (out: Vec<Absence>)
    ensures
        out.len() == db.absences.len(),
        forall|i: int| 0 <= i < out.len() ==> (#[trigger] out@[i]).same_as(db.absences@[i]),
{
    let mut out: Vec<Absence> = Vec::new();
    let mut i: usize = 0;
    while i < db.absences.len()
        invariant
            i <= db.absences.len(),
            out.len() == i,
            forall|k: int| 0 <= k < i ==> (#[trigger] out@[k]).same_as(db.absences@[k]),
        decreases db.absences.len() - i,
    {
        out.push(copy_absence(&db.absences[i]));
        i += 1;
    }
    out
}

/// The absences that end on the day written `today` or later.
pub fn list_future_absences(db: &Store, today: &str) -> (out: Vec<Absence>)
    ensures
        out.len() == db.absences@.filter(absence_lasts(today@)).len(),
        forall|i: int|
            0 <= i < out.len() ==> (#[trigger] out@[i]).same_as(
                db.absences@.filter(absence_lasts(today@))[i],
            ),
{
    let mut out: Vec<Absence> = Vec::new();
    let mut i: usize = 0;
    proof {
        reveal(Seq::filter);
        assert(db.absences@.take(0) =~= Seq::<Absence>::empty());
    }
    while i < db.absences.len()
        invariant
            i <= db.absences.len(),
            out.len() == db.absences@.take(i as int).filter(absence_lasts(today@)).len(),
            forall|k: int|
                0 <= k < out.len() ==> (#[trigger] out@[k]).same_as(
                    db.absences@.take(i as int).filter(absence_lasts(today@))[k],
                ),
        decreases db.absences.len() - i,
    {
        proof {
            assert(db.absences@.take(i as int + 1) =~= db.absences@.take(i as int).push(
                db.absences@[i as int],
            ));
            db.absences@.take(i as int).lemma_filter_push(
                db.absences@[i as int],
                absence_lasts(today@),
            );
        }
        if str_le(today, db.absences[i].end_date.as_str()) {
            out.push(copy_absence(&db.absences[i]));
        }
        i += 1;
    }
    assert(db.absences@.take(db.absences.len() as int) =~= db.absences@);
    out
}

/// Removes the absences that ended before the day written `today`.
pub fn cleanup_expired_absences(db: &mut Store, today: &str)
    requires
        old(db).wf(),
    ensures
        final(db).wf(),
        final(db).absences@ == old(db).absences@.filter(absence_lasts(today@)),
        *final(db) == (Store { absences: final(db).absences, ..*old(db) }),
{
    let mut flags: Vec<bool> = Vec::new();
    let mut i: usize = 0;
    while i < db.absences.len()
        invariant
            i <= db.absences.len(),
            flags.len() == i,
            forall|k: int|
                0 <= k < i ==> flags[k] == text_le(today@, (#[trigger] db.absences@[k]).end_date@),
        decreases db.absences.len() - i,
    {
        flags.push(str_le(today, db.absences[i].end_date.as_str()));
        i += 1;
    }
    proof {
        lemma_filter_ascending(
            db.absences@,
            absence_lasts(today@),
            absence_key(),
            db.next_absence_id as int,
        );
    }
    retain_flagged(&mut db.absences, &flags, Ghost(absence_lasts(today@)));
}

/// Adds an absence and returns the id given to it.
pub fn create_absence(
    db: &mut Store,
    publisher_id: i64,
    start_date: &str,
    end_date: &str,
    description: Option<&str>,
) -> (id: i64)
    requires
        old(db).wf(),
        old(db).next_absence_id < i64::MAX,
    ensures
        final(db).wf(),
        id == old(db).next_absence_id,
        final(db).next_absence_id == id + 1,
        final(db).absences@.len() == old(db).absences@.len() + 1,
        final(db).absences@.drop_last() == old(db).absences@,
        final(db).absences@.last().holds(
            id,
            publisher_id,
            start_date@,
            end_date@,
            opt_str_text(description),
        ),
        *final(db) == (Store {
            absences: final(db).absences,
            next_absence_id: final(db).next_absence_id,
            ..*old(db)
        }),
{
    let id = db.next_absence_id;
    db.next_absence_id = id + 1;
    let row = Absence {
        id,
        publisher_id,
        start_date: String::from_str(start_date),
        end_date: String::from_str(end_date),
        description: own_opt(description),
    };
    proof {
        lemma_push_ascending(old(db).absences@, row, absence_key(), id as int);
    }
    db.absences.push(row);
    assert(final(db).absences@.drop_last() =~= old(db).absences@);
    id
}

/// Gives the absence `id` these values; without such an absence nothing
/// changes.
pub fn update_absence(
    db: &mut Store,
    id: i64,
    publisher_id: i64,
    start_date: &str,
    end_date: &str,
    description: Option<&str>,
)
    requires
        old(db).wf(),
    ensures
        final(db).wf(),
        final(db).absences@.len() == old(db).absences@.len(),
        forall|i: int|
            0 <= i < old(db).absences@.len() ==> if old(db).absences@[i].id == id {
                (#[trigger] final(db).absences@[i]).holds(
                    id,
                    publisher_id,
                    start_date@,
                    end_date@,
                    opt_str_text(description),
                )
            } else {
                final(db).absences@[i] == old(db).absences@[i]
            },
        *final(db) == (Store { absences: final(db).absences, ..*old(db) }),
{
    match find_absence(&db.absences, id) {
        Some(i) => {
            let row = Absence {
                id,
                publisher_id,
                start_date: String::from_str(start_date),
                end_date: String::from_str(end_date),
                description: own_opt(description),
            };
            proof {
                lemma_update_ascending(
                    db.absences@,
                    i as int,
                    row,
                    absence_key(),
                    db.next_absence_id as int,
                );
                assert forall|j: int| 0 <= j < db.absences@.len() && j != i implies (
                #[trigger] db.absences@[j]).id != id by {
                    if db.absences@[j].id == id {
                        lemma_ascending_unique(
                            db.absences@,
                            absence_key(),
                            db.next_absence_id as int,
                            i as int,
                            j,
                        );
                    }
                }
            }
            db.absences.set(i, row);
        },
        None => {},
    }
}

/// Removes the absence `id`.
pub fn delete_absence(db: &mut Store, id: i64)
    requires
        old(db).wf(),
    ensures
        final(db).wf(),
        final(db).absences@ == old(db).absences@.filter(absence_is_not(id)),
        *final(db) == (Store { absences: final(db).absences, ..*old(db) }),
{
    let mut flags: Vec<bool> = Vec::new();
    let mut i: usize = 0;
    while i < db.absences.len()
        invariant
            i <= db.absences.len(),
            flags.len() == i,
            forall|k: int| 0 <= k < i ==> flags[k] == ((#[trigger] db.absences@[k]).id != id),
        decreases db.absences.len() - i,
    {
        flags.push(db.absences[i].id != id);
        i += 1;
    }
    proof {
        lemma_filter_ascending(
            db.absences@,
            absence_is_not(id),
            absence_key(),
            db.next_absence_id as int,
        );
    }
    retain_flagged(&mut db.absences, &flags, Ghost(absence_is_not(id)));
}

/// Whether `publisher_id` is absent on the day written `ymd`.
pub fn is_absent_on(db: &Store, publisher_id: i64, ymd: &str) -> (r: bool)
    ensures
        r == absent_on(db.absences@, publisher_id, ymd@),
{
    let mut i: usize = 0;
    while i < db.absences.len()
        invariant
            i <= db.absences.len(),
            forall|k: int| 0 <= k < i ==> !(#[trigger] db.absences@[k]).covers(publisher_id, ymd@),
        decreases db.absences.len() - i,
    {
        let a = &db.absences[i];
        if a.publisher_id == publisher_id && str_le(a.start_date.as_str(), ymd) && str_le(
            ymd,
            a.end_date.as_str(),
        ) {
            return true;
        }
        i += 1;
    }
    false
}

// ------------------------------------------------------------------- shifts

/// The test that a shift lies within the span from `start` to `end`.
pub open spec fn shift_inside(start: Seq<char>, end: Seq<char>) -> spec_fn(Shift) -> bool {
    |s: Shift| s.within(start, end)
}

/// What shifts are sorted by: the start.
pub open spec fn shift_sort_keys(rows: Seq<Shift>) -> Seq<KeyText> {
    rows.map_values(|s: Shift| KeyText { first: s.start_datetime@, second: Seq::empty() })
}

/// In the order in which shifts are listed, no shift starts before one
/// that is listed before it.
pub proof fn listed_by_start(rows: Seq<Shift>, a: int, b: int)
    requires
        0 <= a < b < rows.len(),
        rows.len() <= usize::MAX,
    ensures
        ({
            let order = sorted_order(shift_sort_keys(rows), rows.len());
            &&& order.len() == rows.len()
            &&& order[a] < rows.len()
            &&& order[b] < rows.len()
            &&& order[a] != order[b]
            &&& text_le(
                rows[order[a] as int].start_datetime@,
                rows[order[b] as int].start_datetime@,
            )
        }),
{
    let keys = shift_sort_keys(rows);
    let order = sorted_order(keys, rows.len());
    sorted_order_sorts(keys, rows.len());
    assert(order.contains(order[a]) && order.contains(order[b]));
    assert(key_le(keys[order[a] as int], keys[order[b] as int]));
    lemma_bytes_le_same(vstd::utf8::encode_utf8(rows[order[a] as int].start_datetime@));
}

/// The shifts that lie within the span from `start` to `end`, sorted by
/// their start.
#[verifier::rlimit(60)]
pub fn list_shifts_between(db: &Store, start: &str, end: &str) -> (out: Vec<Shift>)
    ensures
        out.len() == db.shifts@.filter(shift_inside(start@, end@)).len(),
        forall|i: int|
            0 <= i < out.len() ==> {
                let found = db.shifts@.filter(shift_inside(start@, end@));
                let from = sorted_order(shift_sort_keys(found), found.len())[i];
                from < found.len() && (#[trigger] out@[i]).same_as(found[from as int])
            },
{
    let ghost found = db.shifts@.filter(shift_inside(start@, end@));
    let mut kept: Vec<Shift> = Vec::new();
    let mut keys: Vec<SortKey> = Vec::new();
    let mut i: usize = 0;
    proof {
        reveal(Seq::filter);
        assert(db.shifts@.take(0) =~= Seq::<Shift>::empty());
    }
    while i < db.shifts.len()
        invariant
            i <= db.shifts.len(),
            kept.len() == db.shifts@.take(i as int).filter(shift_inside(start@, end@)).len(),
            keys.len() == kept.len(),
            forall|k: int|
                0 <= k < kept.len() ==> (#[trigger] kept@[k]).same_as(
                    db.shifts@.take(i as int).filter(shift_inside(start@, end@))[k],
                ),
            forall|k: int|
                0 <= k < keys.len() ==> (#[trigger] keys@[k])@ == (KeyText {
                    first: kept@[k].start_datetime@,
                    second: Seq::empty(),
                }),
        decreases db.shifts.len() - i,
    {
        proof {
            assert(db.shifts@.take(i as int + 1) =~= db.shifts@.take(i as int).push(
                db.shifts@[i as int],
            ));
            db.shifts@.take(i as int).lemma_filter_push(
                db.shifts@[i as int],
                shift_inside(start@, end@),
            );
        }
        let s = &db.shifts[i];
        if str_le(start, s.start_datetime.as_str()) && str_le(s.end_datetime.as_str(), end) {
            kept.push(copy_shift(s));
            keys.push(SortKey { first: s.start_datetime.clone(), second: String::new() });
        }
        i += 1;
    }
    proof {
        assert(db.shifts@.take(db.shifts.len() as int) =~= db.shifts@);
        assert(key_texts(keys@) =~= shift_sort_keys(found));
    }
    let order = sort_positions(&keys);
    let mut out: Vec<Shift> = Vec::new();
    let mut j: usize = 0;
    while j < order.len()
        invariant
            j <= order.len(),
            out.len() == j,
            order.len() == kept.len(),
            kept.len() == found.len(),
            forall|k: int| 0 <= k < order.len() ==> order[k] < kept.len(),
            forall|k: int| 0 <= k < kept.len() ==> (#[trigger] kept@[k]).same_as(found[k]),
            forall|k: int|
                0 <= k < j ==> (#[trigger] out@[k]).same_as(found[order@[k] as int]),
        decreases order.len() - j,
    {
        out.push(copy_shift(&kept[order[j]]));
        j += 1;
    }
    out
}

/// Adds a shift and returns the id given to it.
pub fn create_shift(
    db: &mut Store,
    start: &str,
    end: &str,
    location: &str,
    publishers: &[i64],
    warning: Option<&str>,
) -> (id: i64)
    requires
        old(db).wf(),
        old(db).next_shift_id < i64::MAX,
    ensures
        final(db).wf(),
        id == old(db).next_shift_id,
        final(db).next_shift_id == id + 1,
        final(db).shifts@.len() == old(db).shifts@.len() + 1,
        final(db).shifts@.drop_last() == old(db).shifts@,
        final(db).shifts@.last().holds(
            id,
            start@,
            end@,
            location@,
            publishers@,
            opt_str_text(warning),
        ),
        *final(db) == (Store {
            shifts: final(db).shifts,
            next_shift_id: final(db).next_shift_id,
            ..*old(db)
        }),
{
    let id = db.next_shift_id;
    db.next_shift_id = id + 1;
    let row = Shift {
        id,
        start_datetime: String::from_str(start),
        end_datetime: String::from_str(end),
        location: String::from_str(location),
        publishers: copy_slice(publishers),
        warning: own_opt(warning),
    };
    proof {
        lemma_push_ascending(old(db).shifts@, row, shift_key(), id as int);
    }
    db.shifts.push(row);
    assert(final(db).shifts@.drop_last() =~= old(db).shifts@);
    id
}

/// Replaces the row at `at` by `row`, which has the same id.
fn replace_shift(db: &mut Store, at: usize, row: Shift)
    requires
        old(db).wf(),
        at < old(db).shifts.len(),
        row.id == old(db).shifts@[at as int].id,
    ensures
        final(db).wf(),
        final(db).shifts@ == old(db).shifts@.update(at as int, row),
        forall|j: int|
            0 <= j < old(db).shifts@.len() && j != at ==> (#[trigger] old(db).shifts@[j]).id
                != row.id,
        *final(db) == (Store { shifts: final(db).shifts, ..*old(db) }),
{
    proof {
        lemma_update_ascending(db.shifts@, at as int, row, shift_key(), db.next_shift_id as int);
        assert forall|j: int| 0 <= j < db.shifts@.len() && j != at implies (
        #[trigger] db.shifts@[j]).id != row.id by {
            if db.shifts@[j].id == row.id {
                lemma_ascending_unique(
                    db.shifts@,
                    shift_key(),
                    db.next_shift_id as int,
                    at as int,
                    j,
                );
            }
        }
    }
    db.shifts.set(at, row);
}

/// Gives the shift `id` these publishers and this warning; without such a
/// shift nothing changes.
pub fn update_shift_publishers(db: &mut Store, id: i64, publishers: &[i64], warning: Option<&str>)
    requires
        old(db).wf(),
    ensures
        final(db).wf(),
        final(db).shifts@.len() == old(db).shifts@.len(),
        forall|i: int|
            0 <= i < old(db).shifts@.len() ==> if old(db).shifts@[i].id == id {
                (#[trigger] final(db).shifts@[i]).holds(
                    id,
                    old(db).shifts@[i].start_datetime@,
                    old(db).shifts@[i].end_datetime@,
                    old(db).shifts@[i].location@,
                    publishers@,
                    opt_str_text(warning),
                )
            } else {
                final(db).shifts@[i] == old(db).shifts@[i]
            },
        *final(db) == (Store { shifts: final(db).shifts, ..*old(db) }),
{
    match find_shift(&db.shifts, id) {
        Some(i) => {
            let row = Shift {
                id,
                start_datetime: db.shifts[i].start_datetime.clone(),
                end_datetime: db.shifts[i].end_datetime.clone(),
                location: db.shifts[i].location.clone(),
                publishers: copy_slice(publishers),
                warning: own_opt(warning),
            };
            replace_shift(db, i, row);
        },
        None => {},
    }
}

/// Gives the shift `id` this start, end and warning; without such a shift
/// nothing changes.
pub fn update_shift_datetime(db: &mut Store, id: i64, start: &str, end: &str, warning: Option<&str>)
    requires
        old(db).wf(),
    ensures
        final(db).wf(),
        final(db).shifts@.len() == old(db).shifts@.len(),
        forall|i: int|
            0 <= i < old(db).shifts@.len() ==> if old(db).shifts@[i].id == id {
                (#[trigger] final(db).shifts@[i]).holds(
                    id,
                    start@,
                    end@,
                    old(db).shifts@[i].location@,
                    old(db).shifts@[i].publishers@,
                    opt_str_text(warning),
                )
            } else {
                final(db).shifts@[i] == old(db).shifts@[i]
            },
        *final(db) == (Store { shifts: final(db).shifts, ..*old(db) }),
{
    match find_shift(&db.shifts, id) {
        Some(i) => {
            let row = Shift {
                id,
                start_datetime: String::from_str(start),
                end_datetime: String::from_str(end),
                location: db.shifts[i].location.clone(),
                publishers: crate::fairness::copy_ids(&db.shifts[i].publishers),
                warning: own_opt(warning),
            };
            replace_shift(db, i, row);
        },
        None => {},
    }
}

/// Gives the shift `id` this start, end, place and warning; without such a
/// shift nothing changes.
pub fn update_shift_datetime_location(
    db: &mut Store,
    id: i64,
    start: &str,
    end: &str,
    location: &str,
    warning: Option<&str>,
)
    requires
        old(db).wf(),
    ensures
        final(db).wf(),
        final(db).shifts@.len() == old(db).shifts@.len(),
        forall|i: int|
            0 <= i < old(db).shifts@.len() ==> if old(db).shifts@[i].id == id {
                (#[trigger] final(db).shifts@[i]).holds(
                    id,
                    start@,
                    end@,
                    location@,
                    old(db).shifts@[i].publishers@,
                    opt_str_text(warning),
                )
            } else {
                final(db).shifts@[i] == old(db).shifts@[i]
            },
        *final(db) == (Store { shifts: final(db).shifts, ..*old(db) }),
{
    match find_shift(&db.shifts, id) {
        Some(i) => {
            let row = Shift {
                id,
                start_datetime: String::from_str(start),
                end_datetime: String::from_str(end),
                location: String::from_str(location),
                publishers: crate::fairness::copy_ids(&db.shifts[i].publishers),
                warning: own_opt(warning),
            };
            replace_shift(db, i, row);
        },
        None => {},
    }
}

/// Removes the shift `id`.
pub fn delete_shift(db: &mut Store, id: i64)
    requires
        old(db).wf(),
    ensures
        final(db).wf(),
        final(db).shifts@ == old(db).shifts@.filter(shift_is_not(id)),
        *final(db) == (Store { shifts: final(db).shifts, ..*old(db) }),
{
    let mut flags: Vec<bool> = Vec::new();
    let mut i: usize = 0;
    while i < db.shifts.len()
        invariant
            i <= db.shifts.len(),
            flags.len() == i,
            forall|k: int| 0 <= k < i ==> flags[k] == ((#[trigger] db.shifts@[k]).id != id),
        decreases db.shifts.len() - i,
    {
        flags.push(db.shifts[i].id != id);
        i += 1;
    }
    proof {
        lemma_filter_ascending(db.shifts@, shift_is_not(id), shift_key(), db.next_shift_id as int);
    }
    retain_flagged(&mut db.shifts, &flags, Ghost(shift_is_not(id)));
}

/// Removes the shifts that lie within the span from `start` to `end` and
/// returns how many they were.
pub fn delete_shifts_in_range(db: &mut Store, start: &str, end: &str) -> (removed: usize)
    requires
        old(db).wf(),
    ensures
        final(db).wf(),
        final(db).shifts@ == old(db).shifts@.filter(shift_outside(start@, end@)),
        removed == old(db).shifts@.len() - final(db).shifts@.len(),
        *final(db) == (Store { shifts: final(db).shifts, ..*old(db) }),
{
    let before = db.shifts.len();
    let mut flags: Vec<bool> = Vec::new();
    let mut i: usize = 0;
    while i < db.shifts.len()
        invariant
            i <= db.shifts.len(),
            flags.len() == i,
            forall|k: int|
                0 <= k < i ==> flags[k] == !(#[trigger] db.shifts@[k]).within(start@, end@),
        decreases db.shifts.len() - i,
    {
        let s = &db.shifts[i];
        flags.push(
            !(str_le(start, s.start_datetime.as_str()) && str_le(s.end_datetime.as_str(), end)),
        );
        i += 1;
    }
    proof {
        lemma_filter_ascending(
            db.shifts@,
            shift_outside(start@, end@),
            shift_key(),
            db.next_shift_id as int,
        );
        db.shifts@.lemma_filter_len(shift_outside(start@, end@));
    }
    retain_flagged(&mut db.shifts, &flags, Ghost(shift_outside(start@, end@)));
    before - db.shifts.len()
}

// --------------------------------------------------------------- publishers

impl Publisher {
    /// Whether `self` holds what `other` holds.
    pub open spec fn same_as(self, other: Publisher) -> bool {
        self.holds(
            other.id,
            other.first_name@,
            other.last_name@,
            other.gender@,
            other.is_shift_manager,
            other.priority,
        )
    }
}

/// A copy of a publisher.
pub fn copy_publisher(p: &Publisher) -> (r: Publisher)
    ensures
        r.same_as(*p),
{
    Publisher {
        id: p.id,
        first_name: p.first_name.clone(),
        last_name: p.last_name.clone(),
        gender: p.gender.clone(),
        is_shift_manager: p.is_shift_manager,
        priority: p.priority,
    }
}

/// What publishers are sorted by: the first name in lower case, then the
/// last name in lower case.
pub open spec fn publisher_sort_keys(rows: Seq<Publisher>) -> Seq<KeyText> {
    rows.map_values(
        |p: Publisher|
            KeyText { first: lowercase_of(p.first_name@), second: lowercase_of(p.last_name@) },
    )
}

/// The publishers, sorted by first and last name without regard to case.
pub fn list_publishers(db: &Store) -> (out: Vec<Publisher>)
    ensures
        out.len() == db.publishers.len(),
        forall|i: int|
            0 <= i < out.len() ==> {
                let from = sorted_order(
                    publisher_sort_keys(db.publishers@),
                    db.publishers@.len(),
                )[i];
                from < db.publishers.len() && (#[trigger] out@[i]).same_as(
                    db.publishers@[from as int],
                )
            },
{
    let mut keys: Vec<SortKey> = Vec::new();
    let mut i: usize = 0;
    while i < db.publishers.len()
        invariant
            i <= db.publishers.len(),
            keys.len() == i,
            forall|k: int|
                0 <= k < i ==> (#[trigger] keys@[k])@ == (KeyText {
                    first: lowercase_of(db.publishers@[k].first_name@),
                    second: lowercase_of(db.publishers@[k].last_name@),
                }),
        decreases db.publishers.len() - i,
    {
        let p = &db.publishers[i];
        keys.push(
            SortKey {
                first: lowercase(p.first_name.as_str()),
                second: lowercase(p.last_name.as_str()),
            },
        );
        i += 1;
    }
    assert(key_texts(keys@) =~= publisher_sort_keys(db.publishers@));
    let order = sort_positions(&keys);
    let mut out: Vec<Publisher> = Vec::new();
    let mut j: usize = 0;
    while j < order.len()
        invariant
            j <= order.len(),
            out.len() == j,
            order.len() == db.publishers.len(),
            forall|k: int| 0 <= k < order.len() ==> order[k] < db.publishers.len(),
            forall|k: int|
                0 <= k < j ==> (#[trigger] out@[k]).same_as(db.publishers@[order@[k] as int]),
        decreases order.len() - j,
    {
        out.push(copy_publisher(&db.publishers[order[j]]));
        j += 1;
    }
    out
}

// ------------------------------------------------------------ configuration

impl Configuration {
    /// Whether the settings hold exactly these texts.
    pub open spec fn holds(
        self,
        name: Seq<char>,
        theme: Seq<char>,
        name_order: Seq<char>,
        week_start: Seq<char>,
        language: Seq<char>,
        date_format: Seq<char>,
    ) -> bool {
        &&& self.congregation_name@ == name
        &&& self.theme@ == theme
        &&& self.name_order@ == name_order
        &&& self.week_start@ == week_start
        &&& self.language@ == language
        &&& self.date_format@ == date_format
    }

    /// Whether `self` holds what `other` holds.
    pub open spec fn same_as(self, other: Configuration) -> bool {
        self.holds(
            other.congregation_name@,
            other.theme@,
            other.name_order@,
            other.week_start@,
            other.language@,
            other.date_format@,
        )
    }
}

/// `text`, or `fallback` where `text` is empty.
pub open spec fn or_default(text: Seq<char>, fallback: Seq<char>) -> Seq<char> {
    if text.len() == 0 {
        fallback
    } else {
        text
    }
}

/// The order of names where none is set.
pub fn default_name_order() -> (r: String)
    ensures
        r@ == "first_last"@,
{
    String::from_str("first_last")
}

/// The first day of the week where none is set.
pub fn default_week_start() -> (r: String)
    ensures
        r@ == "monday"@,
{
    String::from_str("monday")
}

/// The language where none is set.
pub fn default_language() -> (r: String)
    ensures
        r@ == "system"@,
{
    String::from_str("system")
}

/// The way dates are shown where none is set.
pub fn default_date_format() -> (r: String)
    ensures
        r@ == "YYYY-MM-DD"@,
{
    String::from_str("YYYY-MM-DD")
}

/// A copy of the settings, if there are any.
pub fn get_configuration(db: &Store) -> (r: Option<Configuration>)
    ensures
        r is Some == db.configuration is Some,
        r is Some ==> r->0.same_as(db.configuration->0),
{
    match &db.configuration {
        Some(c) => Some(
            Configuration {
                congregation_name: c.congregation_name.clone(),
                theme: c.theme.clone(),
                name_order: c.name_order.clone(),
                week_start: c.week_start.clone(),
                language: c.language.clone(),
                date_format: c.date_format.clone(),
            },
        ),
        None => None,
    }
}

/// Sets the settings. An empty order of names, first day of the week,
/// language or way of showing dates is replaced by its default.
pub fn update_configuration(
    db: &mut Store,
    name: &str,
    theme: &str,
    name_order: &str,
    week_start: &str,
    language: &str,
    date_format: &str,
)
    ensures
        final(db).configuration is Some,
        final(db).configuration->0.holds(
            name@,
            theme@,
            or_default(name_order@, "first_last"@),
            or_default(week_start@, "monday"@),
            or_default(language@, "system"@),
            or_default(date_format@, "YYYY-MM-DD"@),
        ),
        *final(db) == (Store { configuration: final(db).configuration, ..*old(db) }),
{
    let cfg = Configuration {
        congregation_name: String::from_str(name),
        theme: String::from_str(theme),
        name_order: if name_order.is_empty() {
            default_name_order()
        } else {
            String::from_str(name_order)
        },
        week_start: if week_start.is_empty() {
            default_week_start()
        } else {
            String::from_str(week_start)
        },
        language: if language.is_empty() {
            default_language()
        } else {
            String::from_str(language)
        },
        date_format: if date_format.is_empty() {
            default_date_format()
        } else {
            String::from_str(date_format)
        },
    };
    db.configuration = Some(cfg);
}

/// Whether a congregation name counts as set: it holds more than white
/// space, and it is not the placeholder `Congregation`.
pub fn name_is_set(name: &str) -> (r: bool)
    ensures
        r == (!blank(name@) && name@ != "Congregation"@),
{
    !is_blank(name) && !str_eq(name, "Congregation")
}

/// Whether the settings name a congregation.
pub fn configuration_is_set(db: &Store) -> (r: bool)
    ensures
        r == (db.configuration is Some && !blank(db.configuration->0.congregation_name@)
            && db.configuration->0.congregation_name@ != "Congregation"@),
{
    match &db.configuration {
        Some(c) => name_is_set(c.congregation_name.as_str()),
        None => false,
    }
}

/// The order of names that is set, `first_last` without settings.
pub fn get_name_order(db: &Store) -> (r: String)
    ensures
        r@ == match db.configuration {
            Some(c) => c.name_order@,
            None => "first_last"@,
        },
{
    match &db.configuration {
        Some(c) => c.name_order.clone(),
        None => default_name_order(),
    }
}

/// Empties the store, settings included, and starts the ids anew. Always
/// succeeds.
pub fn reset_data(db: &mut Store) -> (r: bool)
    ensures
        r,
        final(db).wf(),
        final(db).publishers@.len() == 0,
        final(db).schedules@.len() == 0,
        final(db).availability@.len() == 0,
        final(db).absences@.len() == 0,
        final(db).shifts@.len() == 0,
        final(db).relationships@.len() == 0,
        final(db).next_id == 1,
        final(db).next_schedule_id == 1,
        final(db).next_absence_id == 1,
        final(db).next_shift_id == 1,
        final(db).configuration is None,
{
    db.publishers.clear();
    db.next_id = 1;
    db.schedules.clear();
    db.next_schedule_id = 1;
    db.availability.clear();
    db.absences.clear();
    db.next_absence_id = 1;
    db.shifts.clear();
    db.next_shift_id = 1;
    db.relationships.clear();
    db.configuration = None;
    true
}

} // verus!
