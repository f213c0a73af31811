//! The generation run: for every day of a range and every schedule of that
//! weekday, a shift is planned and stored, unless the place is already
//! taken at that time. Each stored shift weighs on the ones planned after
//! it.

use std::collections::HashSet;
use vstd::prelude::*;
use vstd::string::StringExecFns;
use crate::calendar::Date;
use crate::fairness::Fairness;
use crate::repair::{plan_shift, planned, Outline, Warning};
use crate::roster::{Gender, Member, Quota, Relation};
use crate::scoring::{Context, Setting, FAIRNESS_WINDOW_DAYS};
use crate::store::{
    absent_on, create_shift, is_absent_on, opt_text, Absence, Publisher, Schedule, Shift, Store,
};
use crate::text::{str_eq, str_le, text_le};
use crate::weekdays::{weekday_index_from_name, weekday_of_name};

verus! {

/// Why a run could not be carried out, or not to its end.
#[derive(Clone, Copy, Debug, PartialEq, Eq, Structural)]
pub enum GenerationError {
    /// The range is inverted, or one of its ends is no date.
    InputRange,
    /// The store could not take another shift. The shifts stored before
    /// stay.
    StoreError,
}

/// A shift as mathematics sees it.
pub struct ShiftText {
    pub id: i64,
    pub start: Seq<char>,
    pub end: Seq<char>,
    pub location: Seq<char>,
    pub publishers: Seq<i64>,
    pub warning: Option<Seq<char>>,
}

/// What a run reads and does not change.
pub struct Frame {
    pub roster: Seq<Member>,
    pub rels: Seq<Relation>,
    pub availability: Seq<(i64, i64)>,
    pub absences: Seq<Absence>,
    pub schedules: Seq<Schedule>,
    pub seed: u64,
}

/// The record of one shift that a run produced.
pub struct Entry {
    /// The day, by its number and as a date.
    pub number: int,
    pub day: Date,
    /// The position of the schedule among the schedules.
    pub schedule: int,
    /// Who was assigned on that day before, and the fairness window then.
    pub assigned: Seq<i64>,
    pub history: Seq<Seq<i64>>,
    /// The candidates that the shift was planned from.
    pub pool: Seq<i64>,
    pub plan: Outline,
    pub shift: ShiftText,
}

/// How far a run has come.
pub struct Progress {
    pub shifts: Seq<ShiftText>,
    pub next_shift_id: int,
    /// The publishers of each shift of the fairness window.
    pub history: Seq<Seq<i64>>,
    /// Who is assigned on the day in progress.
    pub assigned: Seq<i64>,
    pub log: Seq<Entry>,
    /// Whether the store has refused a shift.
    pub failed: bool,
}

impl Shift {
    /// The shift as mathematics sees it.
    pub open spec fn text(self) -> ShiftText {
        ShiftText {
            id: self.id,
            start: self.start_datetime@,
            end: self.end_datetime@,
            location: self.location@,
            publishers: self.publishers@,
            warning: opt_text(self.warning),
        }
    }
}

/// The shifts as mathematics sees them.
pub open spec fn shift_texts(rows: Seq<Shift>) -> Seq<ShiftText> {
    rows.map_values(|s: Shift| s.text())
}

/// The gender that a publisher's record names.
pub open spec fn gender_of(word: Seq<char>) -> Gender {
    if word == "Male"@ {
        Gender::Male
    } else if word == "Female"@ {
        Gender::Female
    } else {
        Gender::Unspecified
    }
}

/// What the planner reads of a publisher's record.
pub open spec fn member_of(p: Publisher) -> Member {
    Member {
        id: p.id,
        gender: gender_of(p.gender@),
        shift_manager: p.is_shift_manager,
        priority: p.priority,
    }
}

/// What the planner reads of the publishers.
pub open spec fn members_of(rows: Seq<Publisher>) -> Seq<Member> {
    rows.map_values(|p: Publisher| member_of(p))
}

/// The ids of the members, in their order.
pub open spec fn member_ids(roster: Seq<Member>) -> Seq<i64> {
    roster.map_values(|m: Member| m.id)
}

/// A number of places as a schedule states it: none for a negative number,
/// and no more than the machine can count.
pub open spec fn places(n: i64) -> usize {
    if n <= 0 {
        0
    } else if n > usize::MAX {
        usize::MAX
    } else {
        n as usize
    }
}

/// The quota of a schedule.
pub open spec fn quota_of(s: Schedule) -> Quota {
    Quota {
        capacity: places(s.num_publishers),
        managers: places(s.num_shift_managers),
        brothers: places(s.num_brothers),
        sisters: places(s.num_sisters),
    }
}

/// A schedule that asks for no more managers, brothers and sisters
/// together than it has places, none of them in negative numbers, has a
/// quota in which the brothers and sisters fit.
pub proof fn quota_fits(s: Schedule)
    requires
        s.num_shift_managers + s.num_brothers + s.num_sisters <= s.num_publishers,
        s.num_shift_managers >= 0,
        s.num_brothers >= 0,
        s.num_sisters >= 0,
        s.num_publishers <= usize::MAX,
    ensures
        quota_of(s).managers + quota_of(s).brothers + quota_of(s).sisters <= quota_of(
            s,
        ).capacity,
{
}

/// What a run reads of the store.
pub open spec fn frame_of(db: Store, seed: u64) -> Frame {
    Frame {
        roster: members_of(db.publishers@),
        rels: db.relationships@,
        availability: db.availability@,
        absences: db.absences@,
        schedules: db.schedules@,
        seed,
    }
}

/// The test of a candidate for the schedule `schedule_id` on the day written
/// `day`: available for the schedule, not yet assigned on that day, and not
/// absent.
pub open spec fn candidate_test(
    availability: Seq<(i64, i64)>,
    absences: Seq<Absence>,
    schedule_id: i64,
    day: Seq<char>,
    assigned: Set<i64>,
) -> spec_fn(i64) -> bool {
    |x: i64|
        availability.contains((x, schedule_id)) && !assigned.contains(x) && !absent_on(
            absences,
            x,
            day,
        )
}

/// The candidate pool for the schedule `schedule_id` on the day written
/// `day`.
pub open spec fn pool_of(f: Frame, schedule_id: i64, day: Seq<char>, assigned: Seq<i64>) -> Seq<
    i64,
> {
    member_ids(f.roster).filter(
        candidate_test(f.availability, f.absences, schedule_id, day, assigned.to_set()),
    )
}

/// The instant at the hour `hour`, written `HH:MM`, of the day written
/// `day`.
pub open spec fn instant_text(day: Seq<char>, hour: Seq<char>) -> Seq<char> {
    day + " "@ + hour + ":00"@
}

/// Whether some shift is at this place from `start` to `end`.
pub open spec fn occupied(
    shifts: Seq<ShiftText>,
    location: Seq<char>,
    start: Seq<char>,
    end: Seq<char>,
) -> bool {
    exists|k: int|
        0 <= k < shifts.len() && (#[trigger] shifts[k]).location == location && shifts[k].start
            == start && shifts[k].end == end
}

/// The publishers of each shift that starts at `from` or later and ends at
/// `to` or earlier.
pub open spec fn window_history(shifts: Seq<ShiftText>, from: Seq<char>, to: Seq<char>) -> Seq<
    Seq<i64>,
>
    decreases shifts.len(),
{
    if shifts.len() == 0 {
        Seq::empty()
    } else {
        let front = window_history(shifts.drop_last(), from, to);
        let s = shifts.last();
        if text_le(from, s.start) && text_le(s.end, to) {
            front.push(s.publishers)
        } else {
            front
        }
    }
}

/// The text of a warning, if there is one.
pub open spec fn warning_text(w: Option<Warning>) -> Option<Seq<char>> {
    match w {
        Some(x) => Some(x.text()),
        None => None,
    }
}

/// The run after the schedule at position `k` has had its turn on the day
/// `day`, which has the number `number`.
///
/// Nothing happens if the store has refused a shift before, if the schedule
/// is for another weekday, or if its place is taken at its time. Else the
/// store refuses the shift if it has no id left, or the shift is planned and
/// stored: it then counts in the fairness window, and its publishers are
/// assigned for the day.
#[verifier::opaque]
pub open spec fn step(f: Frame, number: int, day: Date, k: int, st: Progress) -> Progress {
    let s = f.schedules[k];
    let start = instant_text(day.text(), s.start_hour@);
    let end = instant_text(day.text(), s.end_hour@);
    if st.failed || weekday_of_name(s.weekday@) != day.weekday() || occupied(
        st.shifts,
        s.location@,
        start,
        end,
    ) {
        st
    } else if st.next_shift_id >= i64::MAX {
        Progress { failed: true, ..st }
    } else {
        let pool = pool_of(f, s.id, day.text(), st.assigned);
        let setting = Setting {
            roster: f.roster,
            rels: f.rels,
            history: st.history,
            seed: f.seed,
            day: day.stamp(),
        };
        let plan = planned(setting, pool, quota_of(s));
        let shift = ShiftText {
            id: st.next_shift_id as i64,
            start,
            end,
            location: s.location@,
            publishers: plan.publishers,
            warning: warning_text(plan.warning),
        };
        Progress {
            shifts: st.shifts.push(shift),
            next_shift_id: st.next_shift_id + 1,
            history: st.history.push(plan.publishers),
            assigned: st.assigned + plan.publishers,
            log: st.log.push(
                Entry {
                    number,
                    day,
                    schedule: k,
                    assigned: st.assigned,
                    history: st.history,
                    pool,
                    plan,
                    shift,
                },
            ),
            failed: false,
        }
    }
}

/// The run after the first `n` schedules have had their turn on the day
/// `day`.
pub open spec fn day_run(f: Frame, number: int, day: Date, n: nat, st: Progress) -> Progress
    decreases n,
{
    if n == 0 {
        st
    } else {
        step(f, number, day, n - 1, day_run(f, number, day, (n - 1) as nat, st))
    }
}

/// The run after the `count` days from the day number `first` on. A day
/// starts with nobody assigned; a number that is no date is passed over.
pub open spec fn days_run(f: Frame, first: int, count: nat, st: Progress) -> Progress
    decreases count,
{
    if count == 0 {
        st
    } else {
        let before = days_run(f, first, (count - 1) as nat, st);
        let number = first + count - 1;
        match Date::of_number(number) {
            Some(day) => day_run(
                f,
                number,
                day,
                f.schedules.len(),
                Progress { assigned: Seq::empty(), ..before },
            ),
            None => before,
        }
    }
}

/// The first day of the fairness window of a run that starts on the day
/// number `start`: 60 days before it, or the first of January of the year 1
/// where the calendar does not reach that far back.
pub open spec fn window_start(start: int) -> Date {
    let n = start - FAIRNESS_WINDOW_DAYS;
    if n < i32::MIN {
        Date { year: 1, month: 1, day: 1 }
    } else {
        match Date::of_number(n) {
            Some(d) => d,
            None => Date { year: 1, month: 1, day: 1 },
        }
    }
}

/// Where a run over the days from `start` to `end` begins: with the shifts
/// stored, and the fairness window filled from them.
pub open spec fn opening(shifts: Seq<ShiftText>, next_shift_id: int, start: Date, end: Date)
    -> Progress {
    Progress {
        shifts,
        next_shift_id,
        history: window_history(
            shifts,
            window_start(start.number()).text() + " 00:00:00"@,
            end.text() + " 23:59:59"@,
        ),
        assigned: Seq::empty(),
        log: Seq::empty(),
        failed: false,
    }
}

/// The number of days from `start` to `end`, both counted.
pub open spec fn span(start: Date, end: Date) -> nat {
    if end.number() >= start.number() {
        (end.number() - start.number() + 1) as nat
    } else {
        0
    }
}

/// Whether `start` and `end` are the ends of a range of days: both are
/// dates, and `start` is not after `end`, by the calendar and by the count
/// of days.
pub open spec fn range_ok(start: Date, end: Date) -> bool {
    start.valid() && end.valid() && start.not_after(end) && start.number() <= end.number()
}

/// Whether the two ends of a range are found again from their numbers, so
/// that a run over the range visits both.
pub open spec fn ends_found(start: Date, end: Date) -> bool {
    Date::of_number(start.number()) == Some(start) && Date::of_number(end.number()) == Some(end)
}

/// The whole run over the days from `start` to `end`.
pub open spec fn outcome(
    f: Frame,
    shifts: Seq<ShiftText>,
    next_shift_id: int,
    start: Date,
    end: Date,
) -> Progress {
    days_run(f, start.number(), span(start, end), opening(shifts, next_shift_id, start, end))
}

/// Whether each of the `count` day numbers from `first` on that is a date is
/// the number of that date.
pub open spec fn days_numbered(first: int, count: nat) -> bool {
    forall|n: int|
        first <= n < first + count ==> (#[trigger] Date::of_number(n) matches Some(d)
            ==> d.number() == n)
}

/// Whether the data of a run in progress are what `st` says.
pub open spec fn agrees(
    st: Progress,
    db: Store,
    fairness: Fairness,
    assigned: Set<i64>,
    failed: bool,
) -> bool {
    &&& st.shifts == shift_texts(db.shifts@)
    &&& st.next_shift_id == db.next_shift_id
    &&& st.history == fairness@
    &&& st.assigned.to_set() == assigned
    &&& st.failed == failed
}

/// The gender that a publisher's record names.
pub fn gender_from_word(word: &str) -> (r: Gender)
    ensures
        r == gender_of(word@),
{
    if str_eq(word, "Male") {
        Gender::Male
    } else if str_eq(word, "Female") {
        Gender::Female
    } else {
        Gender::Unspecified
    }
}

/// What the planner reads of the publishers of the store.
pub fn roster_of(db: &Store) -> (r: Vec<Member>)
    ensures
        r@ == members_of(db.publishers@),
{
    let mut out: Vec<Member> = Vec::new();
    let mut i: usize = 0;
    while i < db.publishers.len()
        invariant
            i <= db.publishers.len(),
            out@ == members_of(db.publishers@.take(i as int)),
        decreases db.publishers.len() - i,
    {
        let p = &db.publishers[i];
        let m = Member {
            id: p.id,
            gender: gender_from_word(p.gender.as_str()),
            shift_manager: p.is_shift_manager,
            priority: p.priority,
        };
        out.push(m);
        assert(out@ =~= members_of(db.publishers@.take(i as int + 1)));
        i += 1;
    }
    assert(db.publishers@.take(db.publishers.len() as int) =~= db.publishers@);
    out
}

/// A copy of the relationships of the store.
pub fn relations_of(db: &Store) -> (r: Vec<Relation>)
    ensures
        r@ == db.relationships@,
{
    let mut out: Vec<Relation> = Vec::new();
    let mut i: usize = 0;
    while i < db.relationships.len()
        invariant
            i <= db.relationships.len(),
            out@ == db.relationships@.take(i as int),
        decreases db.relationships.len() - i,
    {
        out.push(db.relationships[i]);
        assert(out@ =~= db.relationships@.take(i as int + 1));
        i += 1;
    }
    assert(db.relationships@.take(db.relationships.len() as int) =~= db.relationships@);
    out
}

/// A number of places as a schedule states it.
pub fn places_of(n: i64) -> (r: usize)
    ensures
        r == places(n),
{
    if n <= 0 {
        0
    } else if n as u64 > usize::MAX as u64 {
        usize::MAX
    } else {
        n as usize
    }
}

/// The quota of a schedule.
pub fn quota_for(s: &Schedule) -> (q: Quota)
    ensures
        q == quota_of(*s),
{
    Quota {
        capacity: places_of(s.num_publishers),
        managers: places_of(s.num_shift_managers),
        brothers: places_of(s.num_brothers),
        sisters: places_of(s.num_sisters),
    }
}

/// Whether the publisher can serve the schedule.
pub fn is_available(db: &Store, publisher_id: i64, schedule_id: i64) -> (r: bool)
    ensures
        r == db.availability@.contains((publisher_id, schedule_id)),
{
    let mut i: usize = 0;
    while i < db.availability.len()
        invariant
            i <= db.availability.len(),
            forall|k: int| 0 <= k < i ==> db.availability@[k] != (publisher_id, schedule_id),
        decreases db.availability.len() - i,
    {
        let a = db.availability[i];
        if a.0 == publisher_id && a.1 == schedule_id {
            return true;
        }
        i += 1;
    }
    false
}

/// The candidate pool for the schedule `schedule_id` on the day written
/// `day`, given who is assigned on that day already.
#[verifier::rlimit(60)]
pub fn candidate_pool(
    db: &Store,
    roster: &Vec<Member>,
    schedule_id: i64,
    day: &str,
    assigned: &HashSet<i64>,
) -> (pool: Vec<i64>)
    ensures
        pool@ == member_ids(roster@).filter(
            candidate_test(db.availability@, db.absences@, schedule_id, day@, assigned@),
        ),
{
    let ghost ids = member_ids(roster@);
    let ghost test = candidate_test(db.availability@, db.absences@, schedule_id, day@, assigned@);
    broadcast use vstd::std_specs::hash::group_hash_axioms;

    let mut pool: Vec<i64> = Vec::new();
    let mut i: usize = 0;
    proof {
        reveal(Seq::filter);
        assert(ids.take(0) =~= Seq::<i64>::empty());
    }
    while i < roster.len()
        invariant
            i <= roster.len(),
            ids == member_ids(roster@),
            test == candidate_test(db.availability@, db.absences@, schedule_id, day@, assigned@),
            pool@ == ids.take(i as int).filter(test),
        decreases roster.len() - i,
    {
        let x = roster[i].id;
        proof {
            assert(ids[i as int] == x);
            assert(ids.take(i as int + 1) =~= ids.take(i as int).push(x));
            ids.take(i as int).lemma_filter_push(x, test);
        }
        if is_available(db, x, schedule_id) && !assigned.contains(&x) && !is_absent_on(db, x, day) {
            pool.push(x);
        }
        i += 1;
    }
    assert(ids.take(roster.len() as int) =~= ids);
    pool
}

/// The instant at the hour `hour` of the day written `day`.
pub fn instant(day: &str, hour: &str) -> (r: String)
    ensures
        r@ == instant_text(day@, hour@),
{
    let mut r = String::from_str(day);
    r.append(" ");
    r.append(hour);
    r.append(":00");
    r
}

/// Whether some shift of the store is at this place from `start` to `end`.
pub fn is_occupied(db: &Store, location: &str, start: &str, end: &str) -> (r: bool)
    ensures
        r == occupied(shift_texts(db.shifts@), location@, start@, end@),
{
    let mut i: usize = 0;
    while i < db.shifts.len()
        invariant
            i <= db.shifts.len(),
            forall|k: int|
                0 <= k < i ==> !((#[trigger] shift_texts(db.shifts@)[k]).location == location@
                    && shift_texts(db.shifts@)[k].start == start@ && shift_texts(db.shifts@)[k].end
                    == end@),
        decreases db.shifts.len() - i,
    {
        let s = &db.shifts[i];
        assert(shift_texts(db.shifts@)[i as int] == s.text());
        if str_eq(s.location.as_str(), location) && str_eq(s.start_datetime.as_str(), start)
            && str_eq(s.end_datetime.as_str(), end) {
            return true;
        }
        i += 1;
    }
    false
}

/// The fairness window filled from the shifts of the store that start at
/// `from` or later and end at `to` or earlier.
#[verifier::rlimit(60)]
pub fn fill_window(db: &Store, from: &str, to: &str) -> (r: Fairness)
    ensures
        r@ == window_history(shift_texts(db.shifts@), from@, to@),
{
    let mut out = Fairness::new();
    let mut i: usize = 0;
    proof {
        assert(shift_texts(db.shifts@.take(0)) =~= Seq::<ShiftText>::empty());
    }
    while i < db.shifts.len()
        invariant
            i <= db.shifts.len(),
            out@ == window_history(shift_texts(db.shifts@.take(i as int)), from@, to@),
        decreases db.shifts.len() - i,
    {
        let s = &db.shifts[i];
        proof {
            let now = shift_texts(db.shifts@.take(i as int + 1));
            assert(now.drop_last() =~= shift_texts(db.shifts@.take(i as int)));
            assert(now.last() == s.text());
        }
        if str_le(from, s.start_datetime.as_str()) && str_le(s.end_datetime.as_str(), to) {
            out.record(&s.publishers);
        }
        i += 1;
    }
    assert(db.shifts@.take(db.shifts.len() as int) =~= db.shifts@);
    out
}

/// The first day of the fairness window of a run that starts on the day
/// number `start`.
pub fn first_of_window(start: i32) -> (d: Date)
    ensures
        d == window_start(start as int),
        d.valid(),
{
    let first = Date { year: 1, month: 1, day: 1 };
    if start < i32::MIN + 60 {
        first
    } else {
        match Date::from_day_index(start - 60) {
            Some(d) => d,
            None => first,
        }
    }
}

/// Gives the schedule at position `k` its turn on the day `day`.
#[verifier::rlimit(60)]
fn take_turn(
    db: &mut Store,
    roster: &Vec<Member>,
    rels: &Vec<Relation>,
    fairness: &mut Fairness,
    assigned: &mut HashSet<i64>,
    failed: &mut bool,
    number: i32,
    day: Date,
    ymd: &str,
    weekday: u32,
    k: usize,
    seed: u64,
    Ghost(st): Ghost<Progress>,
)
    requires
        old(db).wf(),
        k < old(db).schedules.len(),
        day.valid(),
        ymd@ == day.text(),
        weekday == day.weekday(),
        roster@ == members_of(old(db).publishers@),
        rels@ == old(db).relationships@,
        agrees(st, *old(db), *old(fairness), old(assigned)@, *old(failed)),
    ensures
        final(db).wf(),
        *final(db) == (Store {
            shifts: final(db).shifts,
            next_shift_id: final(db).next_shift_id,
            ..*old(db)
        }),
        agrees(
            step(frame_of(*old(db), seed), number as int, day, k as int, st),
            *final(db),
            *final(fairness),
            final(assigned)@,
            *final(failed),
        ),
{
    reveal(step);
    if *failed {
        return ;
    }
    if weekday_index_from_name(db.schedules[k].weekday.as_str()) != weekday {
        return ;
    }
    let start = instant(ymd, db.schedules[k].start_hour.as_str());
    let end = instant(ymd, db.schedules[k].end_hour.as_str());
    if is_occupied(db, db.schedules[k].location.as_str(), start.as_str(), end.as_str()) {
        return ;
    }
    if db.next_shift_id == i64::MAX {
        *failed = true;
        return ;
    }
    let pool = candidate_pool(db, roster, db.schedules[k].id, ymd, assigned);
    let quota = quota_for(&db.schedules[k]);
    let plan = {
        let ctx = Context { roster, rels, fairness: &*fairness, seed, day: day.day_stamp() };
        plan_shift(&ctx, &pool, &quota)
    };
    let location = db.schedules[k].location.clone();
    let ghost before = shift_texts(db.shifts@);
    let id = match plan.warning {
        Some(w) => create_shift(
            db,
            start.as_str(),
            end.as_str(),
            location.as_str(),
            plan.publishers.as_slice(),
            Some(w.message()),
        ),
        None => create_shift(
            db,
            start.as_str(),
            end.as_str(),
            location.as_str(),
            plan.publishers.as_slice(),
            None,
        ),
    };
    proof {
        let added = ShiftText {
            id,
            start: start@,
            end: end@,
            location: location@,
            publishers: plan.publishers@,
            warning: warning_text(plan.warning),
        };
        assert(db.shifts@.last().text() == added);
        assert(shift_texts(db.shifts@).drop_last() =~= shift_texts(db.shifts@.drop_last()));
        assert(shift_texts(db.shifts@) =~= before.push(added));
    }
    fairness.record(&plan.publishers);
    let ghost base = st.assigned;
    let mut i: usize = 0;
    assert((base + plan.publishers@.take(0)).to_set() =~= base.to_set());
    while i < plan.publishers.len()
        invariant
            i <= plan.publishers.len(),
            assigned@ == (base + plan.publishers@.take(i as int)).to_set(),
        decreases plan.publishers.len() - i,
    {
        broadcast use vstd::std_specs::hash::group_hash_axioms;

        let ghost so_far = base + plan.publishers@.take(i as int);
        assigned.insert(plan.publishers[i]);
        proof {
            let now = base + plan.publishers@.take(i as int + 1);
            assert(now =~= so_far.push(plan.publishers@[i as int]));
            assert forall|x: i64| now.to_set().contains(x) == so_far.to_set().insert(
                plan.publishers@[i as int],
            ).contains(x) by {
                if now.contains(x) {
                    let m = choose|m: int| 0 <= m < now.len() && now[m] == x;
                    if m < so_far.len() {
                        assert(so_far[m] == x);
                    }
                }
                if so_far.contains(x) {
                    let m = choose|m: int| 0 <= m < so_far.len() && so_far[m] == x;
                    assert(now[m] == x);
                }
                assert(now[so_far.len() as int] == plan.publishers@[i as int]);
            }
            assert(now.to_set() =~= so_far.to_set().insert(plan.publishers@[i as int]));
        }
        i += 1;
    }
    assert(plan.publishers@.take(plan.publishers.len() as int) =~= plan.publishers@);
}

/// Runs the generation over the days from `range_start` to `range_end`,
/// both included, with `seed` as the seed of the jitter.
///
/// An inverted range, or one with an end that is no date, is refused and
/// nothing changes. Else both ends of the range are among the days that the
/// run visits, and the shifts that `outcome` says are stored after
/// those that the store holds; nothing else in the store changes. The run
/// fails with `StoreError` if the store refuses a shift for want of an id;
/// the shifts stored up to then stay.
#[verifier::rlimit(60)]
pub fn generate(db: &mut Store, range_start: Date, range_end: Date, seed: u64) -> (r: Result<
    (),
    GenerationError,
>)
    requires
        old(db).wf(),
    ensures
        final(db).wf(),
        *final(db) == (Store {
            shifts: final(db).shifts,
            next_shift_id: final(db).next_shift_id,
            ..*old(db)
        }),
        !range_ok(range_start, range_end) ==> r == Err::<(), GenerationError>(
            GenerationError::InputRange,
        ) && *final(db) == *old(db),
        range_ok(range_start, range_end) ==> days_numbered(
            range_start.number(),
            span(range_start, range_end),
        ) && ends_found(range_start, range_end),
        range_ok(range_start, range_end) ==> {
            let out = outcome(
                frame_of(*old(db), seed),
                shift_texts(old(db).shifts@),
                old(db).next_shift_id as int,
                range_start,
                range_end,
            );
            &&& shift_texts(final(db).shifts@) == out.shifts
            &&& final(db).next_shift_id == out.next_shift_id
            &&& out.failed ==> r == Err::<(), GenerationError>(GenerationError::StoreError)
            &&& !out.failed ==> r is Ok
        },
{
    if !range_start.is_valid() || !range_end.is_valid() || !range_start.is_not_after(&range_end) {
        return Err(GenerationError::InputRange);
    }
    let first = range_start.day_index().unwrap();
    let last = range_end.day_index().unwrap();
    if last < first {
        return Err(GenerationError::InputRange);
    }
    let roster = roster_of(db);
    let rels = relations_of(db);
    let mut from = first_of_window(first).to_text().unwrap();
    from.append(" 00:00:00");
    let mut to = range_end.to_text().unwrap();
    to.append(" 23:59:59");
    let mut fairness = fill_window(db, from.as_str(), to.as_str());
    let mut assigned: HashSet<i64> = HashSet::new();
    let mut failed = false;
    let ghost f = frame_of(*old(db), seed);
    let ghost open = opening(
        shift_texts(old(db).shifts@),
        old(db).next_shift_id as int,
        range_start,
        range_end,
    );
    let ghost mut st = open;
    let total: i64 = if last >= first {
        last as i64 - first as i64 + 1
    } else {
        0
    };
    let mut done: i64 = 0;
    while done < total
        invariant
            db.wf(),
            *db == (Store { shifts: db.shifts, next_shift_id: db.next_shift_id, ..*old(db) }),
            f == frame_of(*old(db), seed),
            roster@ == members_of(db.publishers@),
            rels@ == db.relationships@,
            0 <= done <= total,
            days_numbered(first as int, done as nat),
            total == span(range_start, range_end),
            first == range_start.number(),
            total > 0 ==> total == last - first + 1,
            st == days_run(f, first as int, done as nat, open),
            st.shifts == shift_texts(db.shifts@),
            st.next_shift_id == db.next_shift_id,
            st.history == fairness@,
            st.failed == failed,
        decreases total - done,
    {
        let ghost before = st;
        let number: i32 = (first as i64 + done) as i32;
        match Date::from_day_index(number) {
            Some(day) => {
                let ymd = day.to_text().unwrap();
                let weekday = day.weekday_index().unwrap();
                assigned = HashSet::new();
                proof {
                    st = Progress { assigned: Seq::empty(), ..before };
                    assert(st.assigned.to_set() =~= Set::<i64>::empty());
                }
                let ghost fresh = st;
                let mut k: usize = 0;
                while k < db.schedules.len()
                    invariant
                        db.wf(),
                        *db == (Store {
                            shifts: db.shifts,
                            next_shift_id: db.next_shift_id,
                            ..*old(db)
                        }),
                        f == frame_of(*old(db), seed),
                        roster@ == members_of(db.publishers@),
                        rels@ == db.relationships@,
                        k <= db.schedules.len(),
                        day.valid(),
                        ymd@ == day.text(),
                        weekday == day.weekday(),
                        st == day_run(f, number as int, day, k as nat, fresh),
                        agrees(st, *db, fairness, assigned@, failed),
                    decreases db.schedules.len() - k,
                {
                    take_turn(
                        db,
                        &roster,
                        &rels,
                        &mut fairness,
                        &mut assigned,
                        &mut failed,
                        number,
                        day,
                        ymd.as_str(),
                        weekday,
                        k,
                        seed,
                        Ghost(st),
                    );
                    proof {
                        assert(frame_of(*db, seed) == f);
                        st = step(f, number as int, day, k as int, st);
                    }
                    k += 1;
                }
            },
            None => {},
        }
        done += 1;
    }
    if failed {
        Err(GenerationError::StoreError)
    } else {
        Ok(())
    }
}

} // verus!
