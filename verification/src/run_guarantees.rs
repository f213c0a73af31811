//! What holds of every shift that a run produces, and of a run as a whole.

use vstd::prelude::*;
use crate::calendar::{lemma_text_order, Date};
use crate::driver::{
    candidate_test, day_run, days_numbered, days_run, frame_of, instant_text, member_ids,
    members_of, occupied, opening, outcome, pool_of, quota_of, shift_texts, span,
    step, warning_text, Entry, Frame, Progress, ShiftText,
};
use crate::counting::lemma_filter_no_duplicates;
use crate::guarantees::{
    all_in, capacity_ceiling, gender_minima, gendered, lemma_kept_passes, lemma_planned_within,
    held_of, manager_ceiling, mandatory_closure, no_manager_returns, sisters_restored,
    unique_ids,
};
use crate::repair::planned;
use crate::roster::{bound, headcount, Role};
use crate::selection::greedy;
use crate::scoring::Setting;
use crate::store::{absent_on, publisher_key, Store};
use crate::weekdays::weekday_of_name;

verus! {

/// What the scores of the shift of an entry were computed from.
pub open spec fn setting_of(f: Frame, e: Entry) -> Setting {
    Setting {
        roster: f.roster,
        rels: f.rels,
        history: e.history,
        seed: f.seed,
        day: e.day.stamp(),
    }
}

/// Whether an entry records a shift as the run produces it: for a schedule
/// of the weekday of its day, planned from the candidate pool of that
/// schedule and day, and stored with the times of the schedule on that day.
pub open spec fn entry_ok(f: Frame, e: Entry) -> bool {
    &&& 0 <= e.schedule < f.schedules.len()
    &&& Date::of_number(e.number) == Some(e.day)
    &&& weekday_of_name(f.schedules[e.schedule].weekday@) == e.day.weekday()
    &&& e.pool == pool_of(f, f.schedules[e.schedule].id, e.day.text(), e.assigned)
    &&& e.plan == planned(setting_of(f, e), e.pool, quota_of(f.schedules[e.schedule]))
    &&& e.shift.start == instant_text(e.day.text(), f.schedules[e.schedule].start_hour@)
    &&& e.shift.end == instant_text(e.day.text(), f.schedules[e.schedule].end_hour@)
    &&& e.shift.location == f.schedules[e.schedule].location@
    &&& e.shift.publishers == e.plan.publishers
    &&& e.shift.warning == warning_text(e.plan.warning)
}

/// The shifts of the entries, in their order.
pub open spec fn shifts_of(log: Seq<Entry>) -> Seq<ShiftText> {
    log.map_values(|e: Entry| e.shift)
}

/// Whether two lists have no entry in common.
pub open spec fn apart(a: Seq<i64>, b: Seq<i64>) -> bool {
    forall|x: i64| !(a.contains(x) && b.contains(x))
}

/// Whether a run that began at `base` on the day number `first` is in
/// order before the day number `below`: every entry is as the run produces
/// it and of a day in that span, the shifts are those of `base` and then
/// those of the entries, and two shifts of one day share no publisher.
pub open spec fn run_sound(f: Frame, base: Progress, first: int, below: int, st: Progress) -> bool {
    &&& forall|i: int| 0 <= i < st.log.len() ==> entry_ok(f, #[trigger] st.log[i])
    &&& forall|i: int| 0 <= i < st.log.len() ==> first <= (#[trigger] st.log[i]).number < below
    &&& st.shifts == base.shifts + shifts_of(st.log)
    &&& st.next_shift_id == base.next_shift_id + st.log.len()
    &&& forall|i: int, j: int|
        0 <= i < st.log.len() && 0 <= j < st.log.len() && i != j && (#[trigger] st.log[i]).number
            == (#[trigger] st.log[j]).number ==> apart(
            st.log[i].plan.publishers,
            st.log[j].plan.publishers,
        )
}

/// Whether a run is in order on the day number `number`: as `run_sound`
/// says, and whoever has a shift on that day is assigned.
pub open spec fn day_sound(f: Frame, base: Progress, first: int, number: int, st: Progress) -> bool {
    &&& run_sound(f, base, first, number + 1, st)
    &&& forall|i: int|
        0 <= i < st.log.len() && (#[trigger] st.log[i]).number == number ==> all_in(
            st.log[i].plan.publishers,
            st.assigned,
        )
}

/// A turn keeps the run in order.
#[verifier::rlimit(60)]
pub proof fn lemma_step_sound(
    f: Frame,
    base: Progress,
    first: int,
    number: int,
    day: Date,
    k: int,
    st: Progress,
)
    requires
        0 <= k < f.schedules.len(),
        first <= number,
        Date::of_number(number) == Some(day),
        day_sound(f, base, first, number, st),
    ensures
        day_sound(f, base, first, number, step(f, number, day, k, st)),
{
    reveal(step);
    let next = step(f, number, day, k, st);
    if next.log.len() != st.log.len() {
        let e = next.log.last();
        let n = st.log.len() as int;
        assert(next.log == st.log.push(e));
        assert(entry_ok(f, e));
        assert forall|i: int| 0 <= i < next.log.len() implies entry_ok(f, #[trigger] next.log[i]) by {
            if i < n {
                assert(next.log[i] == st.log[i]);
            }
        }
        assert forall|i: int| 0 <= i < next.log.len() implies first <= (
        #[trigger] next.log[i]).number < number + 1 by {
            if i < n {
                assert(next.log[i] == st.log[i]);
            }
        }
        assert(next.shifts =~= base.shifts + shifts_of(next.log)) by {
            assert(shifts_of(next.log) =~= shifts_of(st.log).push(e.shift));
        }
        lemma_planned_within(setting_of(f, e), e.pool, quota_of(f.schedules[k]));
        assert forall|x: i64| e.plan.publishers.contains(x) implies !st.assigned.contains(x) by {
            assert(e.pool.contains(x));
            lemma_kept_passes(
                member_ids(f.roster),
                candidate_test(
                    f.availability,
                    f.absences,
                    f.schedules[k].id,
                    day.text(),
                    st.assigned.to_set(),
                ),
                x,
            );
        }
        assert forall|i: int, j: int|
            0 <= i < next.log.len() && 0 <= j < next.log.len() && i != j && (
            #[trigger] next.log[i]).number == (#[trigger] next.log[j]).number implies apart(
            next.log[i].plan.publishers,
            next.log[j].plan.publishers,
        ) by {
            if i < n && j < n {
                assert(next.log[i] == st.log[i] && next.log[j] == st.log[j]);
            } else if i < n {
                assert(next.log[i] == st.log[i]);
                assert(all_in(st.log[i].plan.publishers, st.assigned));
            } else {
                assert(next.log[j] == st.log[j]);
                assert(all_in(st.log[j].plan.publishers, st.assigned));
            }
        }
        assert forall|i: int|
            0 <= i < next.log.len() && (#[trigger] next.log[i]).number == number implies all_in(
            next.log[i].plan.publishers,
            next.assigned,
        ) by {
            assert forall|x: i64| next.log[i].plan.publishers.contains(x) implies next.assigned.contains(
                x,
            ) by {
                if i < n {
                    assert(next.log[i] == st.log[i]);
                    assert(st.assigned.contains(x));
                    let m = choose|m: int| 0 <= m < st.assigned.len() && st.assigned[m] == x;
                    assert(next.assigned[m] == x);
                } else {
                    let m = choose|m: int|
                        0 <= m < e.plan.publishers.len() && e.plan.publishers[m] == x;
                    assert(next.assigned[st.assigned.len() + m] == x);
                }
            }
        }
    }
}

/// The turns of a day keep the run in order.
pub proof fn lemma_day_run_sound(
    f: Frame,
    base: Progress,
    first: int,
    number: int,
    day: Date,
    n: nat,
    st: Progress,
)
    requires
        n <= f.schedules.len(),
        first <= number,
        Date::of_number(number) == Some(day),
        day_sound(f, base, first, number, st),
    ensures
        day_sound(f, base, first, number, day_run(f, number, day, n, st)),
    decreases n,
{
    if n > 0 {
        lemma_day_run_sound(f, base, first, number, day, (n - 1) as nat, st);
        lemma_step_sound(
            f,
            base,
            first,
            number,
            day,
            n - 1,
            day_run(f, number, day, (n - 1) as nat, st),
        );
    }
}

/// The days of a run keep it in order.
pub proof fn lemma_days_run_sound(f: Frame, base: Progress, first: int, count: nat)
    requires
        base.log.len() == 0,
    ensures
        run_sound(f, base, first, first + count, days_run(f, first, count, base)),
    decreases count,
{
    if count == 0 {
        assert(base.shifts =~= base.shifts + shifts_of(base.log));
    } else {
        lemma_days_run_sound(f, base, first, (count - 1) as nat);
        let before = days_run(f, first, (count - 1) as nat, base);
        let number = first + count - 1;
        match Date::of_number(number) {
            Some(day) => {
                let fresh = Progress { assigned: Seq::empty(), ..before };
                assert(day_sound(f, base, first, number, fresh));
                lemma_day_run_sound(f, base, first, number, day, f.schedules.len(), fresh);
            },
            None => {},
        }
    }
}

/// A whole run is in order.
pub proof fn lemma_outcome_sound(
    f: Frame,
    shifts: Seq<ShiftText>,
    next_shift_id: int,
    start: Date,
    end: Date,
)
    ensures
        run_sound(
            f,
            opening(shifts, next_shift_id, start, end),
            start.number(),
            start.number() + span(start, end),
            outcome(f, shifts, next_shift_id, start, end),
        ),
{
    lemma_days_run_sound(
        f,
        opening(shifts, next_shift_id, start, end),
        start.number(),
        span(start, end),
    );
}

/// A run stores the shifts of its entries, in their order, after the shifts
/// that were there, and gives them the next ids.
pub proof fn produced_shifts(
    f: Frame,
    shifts: Seq<ShiftText>,
    next_shift_id: int,
    start: Date,
    end: Date,
)
    ensures
        outcome(f, shifts, next_shift_id, start, end).shifts == shifts + shifts_of(
            outcome(f, shifts, next_shift_id, start, end).log,
        ),
        outcome(f, shifts, next_shift_id, start, end).next_shift_id == next_shift_id + outcome(
            f,
            shifts,
            next_shift_id,
            start,
            end,
        ).log.len(),
{
    lemma_outcome_sound(f, shifts, next_shift_id, start, end);
}

/// Every shift of a run is on a day in the range, for a schedule of the
/// weekday of that day, and starts and ends on that day at the hours of the
/// schedule.
pub proof fn weekday_match(
    f: Frame,
    shifts: Seq<ShiftText>,
    next_shift_id: int,
    start: Date,
    end: Date,
    i: int,
)
    requires
        0 <= i < outcome(f, shifts, next_shift_id, start, end).log.len(),
    ensures
        ({
            let e = outcome(f, shifts, next_shift_id, start, end).log[i];
            &&& 0 <= e.schedule < f.schedules.len()
            &&& start.number() <= e.number < start.number() + span(start, end)
            &&& Date::of_number(e.number) == Some(e.day)
            &&& e.day.weekday() == weekday_of_name(f.schedules[e.schedule].weekday@)
            &&& e.shift.start == instant_text(e.day.text(), f.schedules[e.schedule].start_hour@)
            &&& e.shift.end == instant_text(e.day.text(), f.schedules[e.schedule].end_hour@)
            &&& e.shift.location == f.schedules[e.schedule].location@
        }),
{
    lemma_outcome_sound(f, shifts, next_shift_id, start, end);
}

/// Every publisher of a shift of a run is available for the schedule of the
/// shift, and is not absent on its day.
pub proof fn available_and_present(
    f: Frame,
    shifts: Seq<ShiftText>,
    next_shift_id: int,
    start: Date,
    end: Date,
    i: int,
    p: i64,
)
    requires
        0 <= i < outcome(f, shifts, next_shift_id, start, end).log.len(),
        outcome(f, shifts, next_shift_id, start, end).log[i].shift.publishers.contains(p),
    ensures
        ({
            let e = outcome(f, shifts, next_shift_id, start, end).log[i];
            &&& f.availability.contains((p, f.schedules[e.schedule].id))
            &&& !absent_on(f.absences, p, e.day.text())
            &&& member_ids(f.roster).contains(p)
        }),
{
    lemma_outcome_sound(f, shifts, next_shift_id, start, end);
    let e = outcome(f, shifts, next_shift_id, start, end).log[i];
    lemma_planned_within(setting_of(f, e), e.pool, quota_of(f.schedules[e.schedule]));
    lemma_kept_passes(
        member_ids(f.roster),
        candidate_test(
            f.availability,
            f.absences,
            f.schedules[e.schedule].id,
            e.day.text(),
            e.assigned.to_set(),
        ),
        p,
    );
}

/// Whoever has an absence from one date to another is in no shift of a run
/// on a day from the one to the other.
pub proof fn absent_are_left_out(
    f: Frame,
    shifts: Seq<ShiftText>,
    next_shift_id: int,
    start: Date,
    end: Date,
    i: int,
    k: int,
    from: Date,
    to: Date,
)
    requires
        0 <= i < outcome(f, shifts, next_shift_id, start, end).log.len(),
        0 <= k < f.absences.len(),
        from.valid(),
        to.valid(),
        f.absences[k].start_date@ == from.text(),
        f.absences[k].end_date@ == to.text(),
        from.not_after(outcome(f, shifts, next_shift_id, start, end).log[i].day),
        outcome(f, shifts, next_shift_id, start, end).log[i].day.not_after(to),
    ensures
        !outcome(f, shifts, next_shift_id, start, end).log[i].shift.publishers.contains(
            f.absences[k].publisher_id,
        ),
{
    lemma_outcome_sound(f, shifts, next_shift_id, start, end);
    let e = outcome(f, shifts, next_shift_id, start, end).log[i];
    let p = f.absences[k].publisher_id;
    assert(e.day.valid());
    lemma_text_order(from, e.day);
    lemma_text_order(e.day, to);
    assert(f.absences[k].covers(p, e.day.text()));
    if e.shift.publishers.contains(p) {
        available_and_present(f, shifts, next_shift_id, start, end, i, p);
    }
}

/// No shift of a run has more publishers than its schedule has places.
pub proof fn capacity_kept(
    f: Frame,
    shifts: Seq<ShiftText>,
    next_shift_id: int,
    start: Date,
    end: Date,
    i: int,
)
    requires
        0 <= i < outcome(f, shifts, next_shift_id, start, end).log.len(),
    ensures
        ({
            let e = outcome(f, shifts, next_shift_id, start, end).log[i];
            e.shift.publishers.len() <= quota_of(f.schedules[e.schedule]).capacity
        }),
{
    lemma_outcome_sound(f, shifts, next_shift_id, start, end);
    let e = outcome(f, shifts, next_shift_id, start, end).log[i];
    capacity_ceiling(setting_of(f, e), e.pool, quota_of(f.schedules[e.schedule]));
}

/// Two shifts that a run produces for the same date have no publisher in
/// common, where the dates of the range are numbered as the calendar
/// numbers them.
pub proof fn one_shift_a_day(
    f: Frame,
    shifts: Seq<ShiftText>,
    next_shift_id: int,
    start: Date,
    end: Date,
    i: int,
    j: int,
    p: i64,
)
    requires
        days_numbered(start.number(), span(start, end)),
        0 <= i < outcome(f, shifts, next_shift_id, start, end).log.len(),
        0 <= j < outcome(f, shifts, next_shift_id, start, end).log.len(),
        i != j,
        outcome(f, shifts, next_shift_id, start, end).log[i].day == outcome(
            f,
            shifts,
            next_shift_id,
            start,
            end,
        ).log[j].day,
    ensures
        !(outcome(f, shifts, next_shift_id, start, end).log[i].shift.publishers.contains(p)
            && outcome(f, shifts, next_shift_id, start, end).log[j].shift.publishers.contains(p)),
{
    lemma_outcome_sound(f, shifts, next_shift_id, start, end);
    let log = outcome(f, shifts, next_shift_id, start, end).log;
    assert(entry_ok(f, log[i]) && entry_ok(f, log[j]));
    assert(Date::of_number(log[i].number) == Some(log[i].day));
    assert(Date::of_number(log[j].number) == Some(log[j].day));
    assert(log[i].day.number() == log[i].number);
    assert(log[j].day.number() == log[j].number);
    assert(apart(log[i].plan.publishers, log[j].plan.publishers));
}

/// A run is decided by what it reads: two stores that hold the same
/// publishers, relationships, availability, absences, schedules and shifts
/// get the same shifts, with the same publishers in the same order, from
/// runs over the same range with the same seed.
pub proof fn determinism(a: Store, b: Store, seed: u64, start: Date, end: Date)
    requires
        frame_of(a, seed) == frame_of(b, seed),
        shift_texts(a.shifts@) == shift_texts(b.shifts@),
        a.next_shift_id == b.next_shift_id,
    ensures
        outcome(frame_of(a, seed), shift_texts(a.shifts@), a.next_shift_id as int, start, end)
            == outcome(
            frame_of(b, seed),
            shift_texts(b.shifts@),
            b.next_shift_id as int,
            start,
            end,
        ),
{
}

// ------------------------------------------------------------ a second run

/// Whether the place of the schedule at position `k` is taken at its time
/// on the day `day`, if the schedule is for the weekday of that day.
pub open spec fn taken(f: Frame, day: Date, k: int, shifts: Seq<ShiftText>) -> bool {
    weekday_of_name(f.schedules[k].weekday@) == day.weekday() ==> occupied(
        shifts,
        f.schedules[k].location@,
        instant_text(day.text(), f.schedules[k].start_hour@),
        instant_text(day.text(), f.schedules[k].end_hour@),
    )
}

/// Whether `b` holds the shifts of `a`, and maybe more after them.
pub open spec fn extends(a: Seq<ShiftText>, b: Seq<ShiftText>) -> bool {
    a.len() <= b.len() && forall|i: int| 0 <= i < a.len() ==> b[i] == a[i]
}

/// A place that is taken stays taken when shifts are added.
pub proof fn lemma_taken_stays(
    f: Frame,
    day: Date,
    k: int,
    a: Seq<ShiftText>,
    b: Seq<ShiftText>,
)
    requires
        taken(f, day, k, a),
        extends(a, b),
    ensures
        taken(f, day, k, b),
{
    if weekday_of_name(f.schedules[k].weekday@) == day.weekday() {
        let location = f.schedules[k].location@;
        let start = instant_text(day.text(), f.schedules[k].start_hour@);
        let end = instant_text(day.text(), f.schedules[k].end_hour@);
        let m = choose|m: int|
            0 <= m < a.len() && (#[trigger] a[m]).location == location && a[m].start == start
                && a[m].end == end;
        assert(b[m] == a[m]);
    }
}

/// A turn adds shifts at most, and unless the run has failed the place of
/// its schedule is taken afterwards.
pub proof fn lemma_step_takes(f: Frame, number: int, day: Date, k: int, st: Progress)
    ensures
        extends(st.shifts, step(f, number, day, k, st).shifts),
        st.failed ==> step(f, number, day, k, st).failed,
        !step(f, number, day, k, st).failed ==> taken(f, day, k, step(f, number, day, k, st).shifts),
{
    reveal(step);
    let next = step(f, number, day, k, st);
    if next.shifts.len() != st.shifts.len() {
        let n = st.shifts.len() as int;
        assert(next.shifts[n].location == f.schedules[k].location@);
    }
}

/// The turns of a day add shifts at most, and unless the run has failed
/// the places of the schedules that had their turn are taken afterwards.
pub proof fn lemma_day_run_takes(f: Frame, number: int, day: Date, n: nat, st: Progress)
    ensures
        extends(st.shifts, day_run(f, number, day, n, st).shifts),
        st.failed ==> day_run(f, number, day, n, st).failed,
        !day_run(f, number, day, n, st).failed ==> forall|k: int|
            0 <= k < n ==> taken(f, day, k, day_run(f, number, day, n, st).shifts),
    decreases n,
{
    if n > 0 {
        let mid = day_run(f, number, day, (n - 1) as nat, st);
        lemma_day_run_takes(f, number, day, (n - 1) as nat, st);
        lemma_step_takes(f, number, day, n - 1, mid);
        let out = step(f, number, day, n - 1, mid);
        if !out.failed {
            assert forall|k: int| 0 <= k < n implies taken(f, day, k, out.shifts) by {
                if k < n - 1 {
                    lemma_taken_stays(f, day, k, mid.shifts, out.shifts);
                }
            }
        }
    }
}

/// Whether on every date among the `count` day numbers from `first` on the
/// place of every schedule of that weekday is taken at its time.
pub open spec fn all_taken(f: Frame, first: int, count: nat, shifts: Seq<ShiftText>) -> bool {
    forall|n: int, k: int|
        first <= n < first + count && 0 <= k < f.schedules.len() ==> (
        #[trigger] Date::of_number(n) matches Some(d) ==> #[trigger] taken(
            f,
            Date::of_number(n)->0,
            k,
            shifts,
        ))
}

/// The days of a run add shifts at most, and unless the run has failed all
/// places are taken afterwards.
#[verifier::rlimit(60)]
pub proof fn lemma_days_run_takes(f: Frame, first: int, count: nat, st: Progress)
    ensures
        extends(st.shifts, days_run(f, first, count, st).shifts),
        st.failed ==> days_run(f, first, count, st).failed,
        !days_run(f, first, count, st).failed ==> all_taken(
            f,
            first,
            count,
            days_run(f, first, count, st).shifts,
        ),
    decreases count,
{
    if count > 0 {
        let before = days_run(f, first, (count - 1) as nat, st);
        lemma_days_run_takes(f, first, (count - 1) as nat, st);
        let number = first + count - 1;
        let out = days_run(f, first, count, st);
        match Date::of_number(number) {
            Some(day) => {
                let fresh = Progress { assigned: Seq::empty(), ..before };
                lemma_day_run_takes(f, number, day, f.schedules.len(), fresh);
            },
            None => {},
        }
        if !out.failed {
            assert forall|n: int, k: int|
                first <= n < first + count && 0 <= k < f.schedules.len() implies (
            #[trigger] Date::of_number(n) matches Some(d) ==> #[trigger] taken(
                f,
                Date::of_number(n)->0,
                k,
                out.shifts,
            )) by {
                if Date::of_number(n) is Some {
                    if n < number {
                        assert(taken(f, Date::of_number(n)->0, k, before.shifts));
                        lemma_taken_stays(f, Date::of_number(n)->0, k, before.shifts, out.shifts);
                    }
                }
            }
        }
    }
}

/// After a run that came to its end, on every day that it visited the
/// place of every schedule of that weekday is taken at its time: by a shift
/// that was there before, or by one that the run stored.
pub proof fn places_are_taken(
    f: Frame,
    shifts: Seq<ShiftText>,
    next_shift_id: int,
    start: Date,
    end: Date,
    n: int,
    day: Date,
    k: int,
)
    requires
        !outcome(f, shifts, next_shift_id, start, end).failed,
        start.number() <= n < start.number() + span(start, end),
        Date::of_number(n) == Some(day),
        0 <= k < f.schedules.len(),
    ensures
        taken(f, day, k, outcome(f, shifts, next_shift_id, start, end).shifts),
{
    lemma_days_run_takes(
        f,
        start.number(),
        span(start, end),
        opening(shifts, next_shift_id, start, end),
    );
    assert(Date::of_number(n) matches Some(d) ==> taken(
        f,
        Date::of_number(n)->0,
        k,
        outcome(f, shifts, next_shift_id, start, end).shifts,
    ));
}

/// A turn for a schedule whose place is taken changes nothing.
pub proof fn lemma_step_idle(f: Frame, number: int, day: Date, k: int, st: Progress)
    requires
        taken(f, day, k, st.shifts),
    ensures
        step(f, number, day, k, st) == st,
{
    reveal(step);
}

/// The turns of a day on which all places are taken change nothing.
pub proof fn lemma_day_run_idle(f: Frame, number: int, day: Date, n: nat, st: Progress)
    requires
        n <= f.schedules.len(),
        forall|k: int| 0 <= k < f.schedules.len() ==> taken(f, day, k, st.shifts),
    ensures
        day_run(f, number, day, n, st) == st,
    decreases n,
{
    if n > 0 {
        lemma_day_run_idle(f, number, day, (n - 1) as nat, st);
        lemma_step_idle(f, number, day, n - 1, st);
    }
}

/// A run over days on which all places are taken stores nothing.
#[verifier::rlimit(60)]
pub proof fn lemma_days_run_idle(f: Frame, first: int, count: nat, total: nat, st: Progress)
    requires
        count <= total,
        all_taken(f, first, total, st.shifts),
    ensures
        days_run(f, first, count, st).shifts == st.shifts,
        days_run(f, first, count, st).log == st.log,
        days_run(f, first, count, st).next_shift_id == st.next_shift_id,
        days_run(f, first, count, st).failed == st.failed,
    decreases count,
{
    if count > 0 {
        let before = days_run(f, first, (count - 1) as nat, st);
        lemma_days_run_idle(f, first, (count - 1) as nat, total, st);
        let number = first + count - 1;
        match Date::of_number(number) {
            Some(day) => {
                let fresh = Progress { assigned: Seq::empty(), ..before };
                assert forall|k: int| 0 <= k < f.schedules.len() implies taken(
                    f,
                    day,
                    k,
                    fresh.shifts,
                ) by {
                    assert(Date::of_number(number) matches Some(d) ==> taken(
                        f,
                        Date::of_number(number)->0,
                        k,
                        st.shifts,
                    ));
                }
                lemma_day_run_idle(f, number, day, f.schedules.len(), fresh);
            },
            None => {},
        }
    }
}

/// A second run over the range of a run that came to its end stores no
/// shift, whatever its seed.
#[verifier::rlimit(60)]
pub proof fn idempotence(
    f: Frame,
    shifts: Seq<ShiftText>,
    next_shift_id: int,
    start: Date,
    end: Date,
    seed: u64,
)
    requires
        !outcome(f, shifts, next_shift_id, start, end).failed,
    ensures
        ({
            let once = outcome(f, shifts, next_shift_id, start, end);
            let twice = outcome(Frame { seed, ..f }, once.shifts, once.next_shift_id, start, end);
            &&& twice.shifts == once.shifts
            &&& twice.next_shift_id == once.next_shift_id
            &&& twice.log.len() == 0
            &&& !twice.failed
        }),
{
    let once = outcome(f, shifts, next_shift_id, start, end);
    let first = start.number();
    let count = span(start, end);
    lemma_days_run_takes(f, first, count, opening(shifts, next_shift_id, start, end));
    let g = Frame { seed, ..f };
    let again = opening(once.shifts, once.next_shift_id, start, end);
    assert(all_taken(g, first, count, again.shifts)) by {
        assert forall|n: int, k: int|
            first <= n < first + count && 0 <= k < g.schedules.len() implies (
        #[trigger] Date::of_number(n) matches Some(d) ==> #[trigger] taken(
            g,
            Date::of_number(n)->0,
            k,
            again.shifts,
        )) by {
            if Date::of_number(n) is Some {
                assert(taken(f, Date::of_number(n)->0, k, once.shifts));
            }
        }
    }
    lemma_days_run_idle(g, first, count, count, again);
}

// ------------------------------------------------ shifts without warning

/// In a shift that a run stored without a warning, whoever the greedy pass
/// selected is assigned together with each mandatory partner from the
/// candidate pool.
pub proof fn closure_kept(
    f: Frame,
    shifts: Seq<ShiftText>,
    next_shift_id: int,
    start: Date,
    end: Date,
    i: int,
    p: i64,
    o: i64,
)
    requires
        0 <= i < outcome(f, shifts, next_shift_id, start, end).log.len(),
        outcome(f, shifts, next_shift_id, start, end).log[i].shift.warning is None,
        ({
            let e = outcome(f, shifts, next_shift_id, start, end).log[i];
            greedy(setting_of(f, e), e.pool, quota_of(f.schedules[e.schedule])).contains(p)
        }),
        bound(f.rels, p, o),
        outcome(f, shifts, next_shift_id, start, end).log[i].pool.contains(o),
    ensures
        outcome(f, shifts, next_shift_id, start, end).log[i].shift.publishers.contains(p),
        outcome(f, shifts, next_shift_id, start, end).log[i].shift.publishers.contains(o),
{
    lemma_outcome_sound(f, shifts, next_shift_id, start, end);
    let e = outcome(f, shifts, next_shift_id, start, end).log[i];
    mandatory_closure(setting_of(f, e), e.pool, quota_of(f.schedules[e.schedule]), p, o);
}

/// In a shift that a run stored without a warning there are no more
/// managers than its schedule asks for, unless a manager beyond that number
/// came back while the brothers were restored.
pub proof fn managers_kept(
    f: Frame,
    shifts: Seq<ShiftText>,
    next_shift_id: int,
    start: Date,
    end: Date,
    i: int,
)
    requires
        unique_ids(f.roster),
        0 <= i < outcome(f, shifts, next_shift_id, start, end).log.len(),
        outcome(f, shifts, next_shift_id, start, end).log[i].shift.warning is None,
        ({
            let e = outcome(f, shifts, next_shift_id, start, end).log[i];
            let q = quota_of(f.schedules[e.schedule]);
            no_manager_returns(
                setting_of(f, e),
                e.pool,
                q,
                held_of(setting_of(f, e), e.pool, q),
                q.brothers as nat,
                q.brothers as nat,
                sisters_restored(setting_of(f, e), e.pool, q).0,
            )
        }),
    ensures
        ({
            let e = outcome(f, shifts, next_shift_id, start, end).log[i];
            headcount(f.roster, e.shift.publishers, Role::Manager) <= quota_of(
                f.schedules[e.schedule],
            ).managers
        }),
{
    lemma_outcome_sound(f, shifts, next_shift_id, start, end);
    let e = outcome(f, shifts, next_shift_id, start, end).log[i];
    manager_ceiling(setting_of(f, e), e.pool, quota_of(f.schedules[e.schedule]));
}

/// In a shift that a run stored without a warning there are at least as
/// many men and women as its schedule asks for brothers and sisters, where
/// the publishers are different people, each candidate is recorded as a man
/// or as a woman, and the schedule asks for no more brothers and sisters
/// than it has places.
#[verifier::rlimit(60)]
pub proof fn minima_kept(
    f: Frame,
    shifts: Seq<ShiftText>,
    next_shift_id: int,
    start: Date,
    end: Date,
    i: int,
)
    requires
        unique_ids(f.roster),
        0 <= i < outcome(f, shifts, next_shift_id, start, end).log.len(),
        outcome(f, shifts, next_shift_id, start, end).log[i].shift.warning is None,
        ({
            let e = outcome(f, shifts, next_shift_id, start, end).log[i];
            let q = quota_of(f.schedules[e.schedule]);
            gendered(f.roster, e.pool) && q.brothers + q.sisters <= q.capacity
        }),
    ensures
        ({
            let e = outcome(f, shifts, next_shift_id, start, end).log[i];
            let q = quota_of(f.schedules[e.schedule]);
            &&& headcount(f.roster, e.shift.publishers, Role::Male) >= q.brothers
            &&& headcount(f.roster, e.shift.publishers, Role::Female) >= q.sisters
        }),
{
    lemma_outcome_sound(f, shifts, next_shift_id, start, end);
    let e = outcome(f, shifts, next_shift_id, start, end).log[i];
    let ids = member_ids(f.roster);
    assert(ids.no_duplicates()) by {
        assert forall|a: int, b: int| 0 <= a < ids.len() && 0 <= b < ids.len() && a
            != b implies ids[a] != ids[b] by {
            assert(f.roster[a].id != f.roster[b].id);
        }
    }
    lemma_filter_no_duplicates(
        ids,
        candidate_test(
            f.availability,
            f.absences,
            f.schedules[e.schedule].id,
            e.day.text(),
            e.assigned.to_set(),
        ),
    );
    gender_minima(setting_of(f, e), e.pool, quota_of(f.schedules[e.schedule]));
}

// ------------------------------------------------------- the store's part

/// In a store that is in order no two publishers have the same id, so that
/// the candidates of a pool are different people.
pub proof fn roster_is_unique(db: Store, seed: u64)
    requires
        db.wf(),
    ensures
        unique_ids(frame_of(db, seed).roster),
        member_ids(frame_of(db, seed).roster).no_duplicates(),
{
    let rows = db.publishers@;
    let roster = members_of(rows);
    assert forall|i: int, j: int|
        0 <= i < roster.len() && 0 <= j < roster.len() && i != j implies roster[i].id
        != roster[j].id by {
        if i < j {
            assert(publisher_key()(rows[i]) < publisher_key()(rows[j]));
        } else {
            assert(publisher_key()(rows[j]) < publisher_key()(rows[i]));
        }
    }
    let ids = member_ids(roster);
    assert forall|i: int, j: int| 0 <= i < ids.len() && 0 <= j < ids.len() && i != j implies ids[i]
        != ids[j] by {
        assert(roster[i].id != roster[j].id);
    }
}

} // verus!
