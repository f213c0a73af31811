use shift_planner::calendar::Date;
use shift_planner::driver::{generate, GenerationError};
use shift_planner::roster::RelationshipKind;
use shift_planner::store::{
    add_relationship, create_absence, create_publisher, create_schedule, create_shift,
    set_publisher_availability, Schedule, Store,
};

fn monday_schedule(n: i64, m: i64, b: i64, s: i64) -> Schedule {
    Schedule {
        id: 0,
        location: "Market".to_string(),
        start_hour: "09:00".to_string(),
        end_hour: "12:00".to_string(),
        weekday: "Monday".to_string(),
        description: None,
        num_publishers: n,
        num_shift_managers: m,
        num_brothers: b,
        num_sisters: s,
    }
}

// Puts a schedule into the store as it is, whatever its quotas.
fn add_schedule(db: &mut Store, s: &Schedule) -> i64 {
    let id = db.next_schedule_id;
    let mut row = s.clone();
    row.id = id;
    db.schedules.push(row);
    db.next_schedule_id += 1;
    id
}

fn day(y: i32, m: u32, d: u32) -> Date {
    Date { year: y, month: m, day: d }
}

fn sorted(v: &[i64]) -> Vec<i64> {
    let mut w = v.to_vec();
    w.sort();
    w
}

#[test]
fn exact_fit() {
    let mut db = Store::new();
    let sid = create_schedule(&mut db, &monday_schedule(3, 1, 2, 0)).unwrap();
    let a = create_publisher(&mut db, "A", "A", "Male", true, 5);
    let b = create_publisher(&mut db, "B", "B", "Male", false, 5);
    let c = create_publisher(&mut db, "C", "C", "Male", false, 5);
    for p in [a, b, c] {
        set_publisher_availability(&mut db, p, &[sid]);
    }
    assert_eq!(generate(&mut db, day(2025, 1, 6), day(2025, 1, 6), 1), Ok(()));
    assert_eq!(db.shifts.len(), 1);
    let shift = &db.shifts[0];
    assert_eq!(shift.start_datetime, "2025-01-06 09:00:00");
    assert_eq!(shift.end_datetime, "2025-01-06 12:00:00");
    assert_eq!(shift.location, "Market");
    assert_eq!(sorted(&shift.publishers), vec![a, b, c]);
    assert_eq!(shift.publishers[0], a);
    assert_eq!(shift.warning, None);
}

#[test]
fn absence_fallback() {
    let mut db = Store::new();
    let sid = create_schedule(&mut db, &monday_schedule(3, 1, 2, 0)).unwrap();
    let a = create_publisher(&mut db, "A", "A", "Male", true, 5);
    let b = create_publisher(&mut db, "B", "B", "Male", false, 5);
    let c = create_publisher(&mut db, "C", "C", "Male", false, 5);
    let d = create_publisher(&mut db, "D", "D", "Male", false, 5);
    for p in [a, b, c, d] {
        set_publisher_availability(&mut db, p, &[sid]);
    }
    create_absence(&mut db, a, "2025-01-06", "2025-01-06", None);
    assert_eq!(generate(&mut db, day(2025, 1, 6), day(2025, 1, 6), 1), Ok(()));
    assert_eq!(db.shifts.len(), 1);
    assert_eq!(sorted(&db.shifts[0].publishers), vec![b, c, d]);
    assert!(!db.shifts[0].publishers.contains(&a));
}

#[test]
fn mandatory_pair_honored() {
    let mut db = Store::new();
    let sid = create_schedule(&mut db, &monday_schedule(2, 0, 1, 1)).unwrap();
    let e = create_publisher(&mut db, "E", "E", "Female", false, 5);
    let f = create_publisher(&mut db, "F", "F", "Male", false, 5);
    add_relationship(&mut db, e, f, RelationshipKind::Mandatory);
    for p in [e, f] {
        set_publisher_availability(&mut db, p, &[sid]);
    }
    assert_eq!(generate(&mut db, day(2025, 1, 6), day(2025, 1, 6), 7), Ok(()));
    assert_eq!(db.shifts.len(), 1);
    assert_eq!(sorted(&db.shifts[0].publishers), vec![e, f]);
    assert_eq!(db.shifts[0].warning, None);
}

#[test]
fn mandatory_pair_violates_capacity() {
    let mut db = Store::new();
    // The store takes no schedule with more brothers and sisters than
    // places, so this one is put in as a backup would bring it.
    assert!(create_schedule(&mut db, &monday_schedule(1, 0, 1, 1)).is_err());
    let sid = add_schedule(&mut db, &monday_schedule(1, 0, 1, 1));
    let e = create_publisher(&mut db, "E", "E", "Female", false, 5);
    let f = create_publisher(&mut db, "F", "F", "Male", false, 5);
    add_relationship(&mut db, e, f, RelationshipKind::Mandatory);
    for p in [e, f] {
        set_publisher_availability(&mut db, p, &[sid]);
    }
    assert_eq!(generate(&mut db, day(2025, 1, 6), day(2025, 1, 6), 7), Ok(()));
    assert_eq!(db.shifts.len(), 1);
    assert_eq!(db.shifts[0].publishers.len(), 1);
    assert_eq!(
        db.shifts[0].warning.as_deref(),
        Some("had to drop some selections due to capacity; mandatory pairs may be affected")
    );
}

#[test]
fn fairness_preference() {
    let mut db = Store::new();
    let sid = create_schedule(&mut db, &monday_schedule(1, 0, 0, 0)).unwrap();
    let g = create_publisher(&mut db, "G", "G", "Male", false, 5);
    let h = create_publisher(&mut db, "H", "H", "Male", false, 5);
    for p in [g, h] {
        set_publisher_availability(&mut db, p, &[sid]);
    }
    for i in 0..10 {
        let start = format!("2024-12-{:02} 09:00:00", 10 + i);
        let end = format!("2024-12-{:02} 12:00:00", 10 + i);
        create_shift(&mut db, &start, &end, "Elsewhere", &[g], None);
    }
    for seed in 0..20u64 {
        let mut run = Store::new();
        std::mem::swap(&mut run, &mut db);
        let before = run.shifts.len();
        assert_eq!(generate(&mut run, day(2025, 1, 6), day(2025, 1, 6), seed), Ok(()));
        assert_eq!(run.shifts.len(), before + 1);
        assert_eq!(run.shifts[before].publishers, vec![h]);
        run.shifts.pop();
        run.next_shift_id -= 1;
        std::mem::swap(&mut run, &mut db);
    }
}

#[test]
fn inverted_range_is_refused() {
    let mut db = Store::new();
    assert_eq!(
        generate(&mut db, day(2025, 1, 7), day(2025, 1, 6), 0),
        Err(GenerationError::InputRange)
    );
    assert_eq!(
        generate(&mut db, day(2025, 2, 30), day(2025, 3, 6), 0),
        Err(GenerationError::InputRange)
    );
    assert_eq!(db.shifts.len(), 0);
}

fn busy_store() -> Store {
    let mut db = Store::new();
    let mut market = monday_schedule(3, 1, 1, 1);
    market.location = "Market".to_string();
    let mut station = monday_schedule(2, 0, 1, 0);
    station.location = "Station".to_string();
    station.start_hour = "14:00".to_string();
    station.end_hour = "16:00".to_string();
    let mut harbour = monday_schedule(2, 0, 0, 1);
    harbour.location = "Harbour".to_string();
    harbour.weekday = "mittwoch".to_string();
    let market_id = create_schedule(&mut db, &market).unwrap();
    let station_id = create_schedule(&mut db, &station).unwrap();
    let harbour_id = create_schedule(&mut db, &harbour).unwrap();
    let people = [
        ("A", "Male", true, 5),
        ("B", "Male", false, 7),
        ("C", "Male", false, 3),
        ("D", "Female", false, 5),
        ("E", "Female", false, 6),
        ("F", "Male", true, 2),
        ("G", "Female", false, 1),
        ("H", "Male", false, 9),
    ];
    for (name, gender, is_manager, priority) in people {
        let p = create_publisher(&mut db, name, name, gender, is_manager, priority);
        if p % 2 == 0 {
            set_publisher_availability(&mut db, p, &[market_id, station_id, harbour_id]);
        } else {
            set_publisher_availability(&mut db, p, &[market_id, harbour_id]);
        }
    }
    add_relationship(&mut db, 2, 4, RelationshipKind::Mandatory);
    add_relationship(&mut db, 5, 8, RelationshipKind::Recommended);
    create_absence(&mut db, 8, "2025-01-13", "2025-01-19", None);
    db
}

#[test]
fn every_shift_of_a_run_keeps_the_rules() {
    let mut db = busy_store();
    assert_eq!(generate(&mut db, day(2025, 1, 6), day(2025, 1, 19), 99), Ok(()));
    // Two Mondays with two schedules, two Wednesdays with one.
    assert_eq!(db.shifts.len(), 6);
    let starts: Vec<&str> = db.shifts.iter().map(|s| s.start_datetime.as_str()).collect();
    assert_eq!(
        starts,
        vec![
            "2025-01-06 09:00:00",
            "2025-01-06 14:00:00",
            "2025-01-08 09:00:00",
            "2025-01-13 09:00:00",
            "2025-01-13 14:00:00",
            "2025-01-15 09:00:00",
        ]
    );
    for (i, shift) in db.shifts.iter().enumerate() {
        assert_eq!(shift.id, i as i64 + 1);
        let schedule = db.schedules.iter().find(|s| s.location == shift.location).unwrap();
        assert!(shift.publishers.len() <= schedule.num_publishers as usize);
        let date = &shift.start_datetime[0..10];
        for p in &shift.publishers {
            assert!(db.availability.contains(&(*p, schedule.id)));
            assert!(!shift_planner::store::is_absent_on(&db, *p, date));
            assert_eq!(shift.publishers.iter().filter(|x| *x == p).count(), 1);
        }
        for other in db.shifts.iter().skip(i + 1) {
            if other.start_datetime[0..10] == *date {
                for p in &shift.publishers {
                    assert!(!other.publishers.contains(p));
                }
            }
        }
        if shift.warning.is_none() {
            assert_eq!(shift.publishers.len(), schedule.num_publishers as usize);
            if shift.publishers.contains(&2) || shift.publishers.contains(&4) {
                assert!(shift.publishers.contains(&2) && shift.publishers.contains(&4));
            }
        }
    }
    // Nobody who is absent in the second week is assigned then.
    assert!(db.shifts[3..].iter().all(|s| !s.publishers.contains(&8)));
}

#[test]
fn a_second_run_adds_nothing() {
    let mut db = busy_store();
    assert_eq!(generate(&mut db, day(2025, 1, 6), day(2025, 1, 19), 99), Ok(()));
    let once = db.clone();
    assert_eq!(generate(&mut db, day(2025, 1, 6), day(2025, 1, 19), 5), Ok(()));
    assert_eq!(db, once);
    assert_eq!(generate(&mut db, day(2025, 1, 6), day(2025, 1, 6), 99), Ok(()));
    assert_eq!(db, once);
}

#[test]
fn the_same_seed_gives_the_same_shifts() {
    let mut one = busy_store();
    let mut two = busy_store();
    assert_eq!(generate(&mut one, day(2025, 1, 1), day(2025, 3, 31), 2025), Ok(()));
    assert_eq!(generate(&mut two, day(2025, 1, 1), day(2025, 3, 31), 2025), Ok(()));
    assert_eq!(one, two);
    assert!(one.shifts.len() > 30);
}

#[test]
fn a_run_changes_nothing_but_the_shifts() {
    let mut db = busy_store();
    let before = db.clone();
    assert_eq!(generate(&mut db, day(2025, 1, 6), day(2025, 1, 12), 1), Ok(()));
    assert_eq!(db.publishers, before.publishers);
    assert_eq!(db.schedules, before.schedules);
    assert_eq!(db.availability, before.availability);
    assert_eq!(db.absences, before.absences);
    assert_eq!(db.relationships, before.relationships);
    assert_eq!(db.shifts.len(), 3);
    assert_eq!(db.next_shift_id, 4);
}

#[test]
fn a_full_store_stops_the_run() {
    let mut db = busy_store();
    db.next_shift_id = i64::MAX - 1;
    assert_eq!(
        generate(&mut db, day(2025, 1, 6), day(2025, 1, 19), 99),
        Err(GenerationError::StoreError)
    );
    assert_eq!(db.shifts.len(), 1);
    assert_eq!(db.shifts[0].id, i64::MAX - 1);
    assert_eq!(db.next_shift_id, i64::MAX);
}

#[test]
fn a_taken_place_is_passed_over() {
    let mut db = busy_store();
    create_shift(&mut db, "2025-01-06 09:00:00", "2025-01-06 12:00:00", "Market", &[1], None);
    assert_eq!(generate(&mut db, day(2025, 1, 6), day(2025, 1, 6), 99), Ok(()));
    assert_eq!(db.shifts.len(), 2);
    assert_eq!(db.shifts[1].location, "Station");
    // The shift that was there is not in the fairness window of its own day's
    // candidates, but its publisher may still serve at the other place.
    assert_eq!(db.shifts[0].publishers, vec![1]);
}

#[test]
fn equal_scores_go_to_the_lower_id_in_a_run() {
    // Two publishers who differ in nothing but their ids and their jitter:
    // whoever is chosen has the higher jitter, and on equal jitter the
    // lower id.
    let mut db = Store::new();
    let sid = create_schedule(&mut db, &monday_schedule(1, 0, 0, 0)).unwrap();
    for name in ["J", "x", "y", "z", "w", "v", "I"] {
        let p = create_publisher(&mut db, name, name, "Male", false, 5);
        if p == 1 || p == 7 {
            set_publisher_availability(&mut db, p, &[sid]);
        }
    }
    for seed in 0..40u64 {
        let mut run = db.clone();
        assert_eq!(generate(&mut run, day(2025, 1, 6), day(2025, 1, 6), seed), Ok(()));
        let stamp = day(2025, 1, 6).day_stamp();
        let one = shift_planner::scoring::jitter(seed, stamp, 1);
        let seven = shift_planner::scoring::jitter(seed, stamp, 7);
        let expected = if seven > one { 7 } else { 1 };
        assert_eq!(run.shifts[0].publishers, vec![expected]);
    }
}

#[test]
fn both_ends_of_the_range_are_visited() {
    let mut db = busy_store();
    // Monday the 6th and Wednesday the 15th of January 2025.
    assert_eq!(generate(&mut db, day(2025, 1, 6), day(2025, 1, 15), 4), Ok(()));
    let starts: Vec<&str> = db.shifts.iter().map(|s| &s.start_datetime[0..10]).collect();
    assert_eq!(starts.first(), Some(&"2025-01-06"));
    assert_eq!(starts.last(), Some(&"2025-01-15"));
    let d = day(2025, 1, 6);
    assert_eq!(Date::from_day_index(d.day_index().unwrap()), Some(d));
}
