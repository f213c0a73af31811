use shift_planner::order::sort_ids;
use shift_planner::roster::{Relation, RelationshipKind};
use shift_planner::store::{
    add_relationship, cleanup_expired_absences, configuration_is_set, create_absence,
    create_publisher, create_schedule, create_shift, default_date_format, default_language,
    default_name_order, default_week_start, delete_absence, delete_publisher, delete_schedule,
    delete_shift, delete_shifts_in_range, get_configuration, get_name_order, is_absent_on,
    list_absences, list_availability_for_publisher, list_future_absences, list_publishers,
    list_publishers_for_schedule, list_relationships_for_publisher, list_schedules,
    list_shifts_between, name_is_set, remove_relationship, reset_data,
    set_publisher_availability, update_absence, update_configuration, update_publisher,
    update_schedule, update_shift_datetime, update_shift_datetime_location,
    update_shift_publishers, validate_schedule_counts, Schedule, ScheduleError, Store,
};
use shift_planner::transfer::{
    arrange, export_data, import_data, AbsenceExport, AvailabilityExport, ExportPayload,
    RelationshipExport,
};

fn schedule(weekday: &str, start: &str) -> Schedule {
    Schedule {
        id: 0,
        location: "Station".to_string(),
        start_hour: start.to_string(),
        end_hour: "18:00".to_string(),
        weekday: weekday.to_string(),
        description: Some("cart".to_string()),
        num_publishers: 2,
        num_shift_managers: 1,
        num_brothers: 0,
        num_sisters: 1,
    }
}

#[test]
fn publishers_are_created_updated_and_deleted() {
    let mut db = Store::new();
    let a = create_publisher(&mut db, "Zoe", "Young", "Female", false, 3);
    let b = create_publisher(&mut db, "adam", "Old", "Male", true, 7);
    let c = create_publisher(&mut db, "Adam", "Best", "Male", false, 5);
    assert_eq!((a, b, c), (1, 2, 3));
    assert_eq!(db.next_id, 4);
    assert_eq!(db.publishers.len(), 3);
    assert_eq!(db.publishers[1].first_name, "adam");
    assert!(db.publishers[1].is_shift_manager);
    update_publisher(&mut db, b, "Adam", "Older", "Male", false, 8);
    assert_eq!(db.publishers[1].last_name, "Older");
    assert_eq!(db.publishers[1].priority, 8);
    assert!(!db.publishers[1].is_shift_manager);
    assert_eq!(db.publishers[0].first_name, "Zoe");
    update_publisher(&mut db, 99, "No", "Body", "Male", false, 1);
    assert_eq!(db.publishers.len(), 3);
    let names: Vec<String> = list_publishers(&db).iter().map(|p| p.last_name.clone()).collect();
    assert_eq!(names, vec!["Best", "Older", "Young"]);
    set_publisher_availability(&mut db, a, &[1, 2]);
    set_publisher_availability(&mut db, b, &[2]);
    create_absence(&mut db, a, "2025-01-01", "2025-01-02", None);
    create_absence(&mut db, b, "2025-01-01", "2025-01-02", Some("away"));
    delete_publisher(&mut db, a);
    assert_eq!(db.publishers.len(), 2);
    assert_eq!(db.publishers[0].id, b);
    assert_eq!(db.availability, vec![(b, 2)]);
    assert_eq!(db.absences.len(), 1);
    assert_eq!(db.absences[0].publisher_id, b);
    assert_eq!(create_publisher(&mut db, "New", "One", "Male", false, 1), 4);
}

#[test]
fn schedules_are_listed_by_weekday_and_start() {
    let mut db = Store::new();
    let a = create_schedule(&mut db, &schedule("Tuesday", "09:00")).unwrap();
    let b = create_schedule(&mut db, &schedule("Monday", "14:00")).unwrap();
    let c = create_schedule(&mut db, &schedule("Monday", "09:00")).unwrap();
    assert_eq!((a, b, c), (1, 2, 3));
    let ids: Vec<i64> = list_schedules(&db).iter().map(|s| s.id).collect();
    assert_eq!(ids, vec![3, 2, 1]);
    let mut changed = schedule("Friday", "10:00");
    changed.id = b;
    assert_eq!(update_schedule(&mut db, &changed), Ok(()));
    assert_eq!(db.schedules[1].weekday, "Friday");
    assert_eq!(db.schedules[1].id, b);
    assert_eq!(db.schedules[0].weekday, "Tuesday");
    changed.id = 77;
    assert_eq!(update_schedule(&mut db, &changed), Ok(()));
    assert_eq!(db.schedules.len(), 3);
    set_publisher_availability(&mut db, 5, &[a, b]);
    set_publisher_availability(&mut db, 6, &[b]);
    delete_schedule(&mut db, b);
    assert_eq!(db.schedules.len(), 2);
    assert_eq!(db.availability, vec![(5, a)]);
    assert_eq!(validate_schedule_counts(&schedule("Monday", "09:00")), Ok(()));
    let mut crowded = schedule("Monday", "09:00");
    crowded.num_brothers = 1;
    assert_eq!(validate_schedule_counts(&crowded), Err(ScheduleError::CountsExceedPlaces));
    let before = db.clone();
    assert_eq!(create_schedule(&mut db, &crowded), Err(ScheduleError::CountsExceedPlaces));
    assert_eq!(db, before);
    crowded.id = a;
    assert_eq!(update_schedule(&mut db, &crowded), Err(ScheduleError::CountsExceedPlaces));
    assert_eq!(db, before);
}

#[test]
fn availability_is_replaced_per_publisher() {
    let mut db = Store::new();
    set_publisher_availability(&mut db, 1, &[10, 11]);
    set_publisher_availability(&mut db, 2, &[11]);
    set_publisher_availability(&mut db, 1, &[12, 11]);
    assert_eq!(db.availability, vec![(2, 11), (1, 12), (1, 11)]);
    assert_eq!(list_availability_for_publisher(&db, 1), vec![12, 11]);
    assert_eq!(list_availability_for_publisher(&db, 3), Vec::<i64>::new());
    assert_eq!(list_publishers_for_schedule(&db, 11), vec![2, 1]);
    assert_eq!(list_publishers_for_schedule(&db, 10), Vec::<i64>::new());
}

#[test]
fn relationships_are_kept_once_per_pair() {
    let mut db = Store::new();
    add_relationship(&mut db, 5, 2, RelationshipKind::Recommended);
    add_relationship(&mut db, 2, 7, RelationshipKind::Mandatory);
    add_relationship(&mut db, 4, 4, RelationshipKind::Mandatory);
    assert_eq!(
        db.relationships,
        vec![
            Relation { a: 2, b: 5, kind: RelationshipKind::Recommended },
            Relation { a: 2, b: 7, kind: RelationshipKind::Mandatory },
        ]
    );
    add_relationship(&mut db, 2, 5, RelationshipKind::Mandatory);
    assert_eq!(db.relationships.len(), 2);
    assert_eq!(db.relationships[0].kind, RelationshipKind::Mandatory);
    assert_eq!(
        list_relationships_for_publisher(&db, 2),
        vec![(5, RelationshipKind::Mandatory), (7, RelationshipKind::Mandatory)]
    );
    assert_eq!(list_relationships_for_publisher(&db, 7), vec![(2, RelationshipKind::Mandatory)]);
    remove_relationship(&mut db, 7, 2);
    assert_eq!(db.relationships.len(), 1);
    remove_relationship(&mut db, 3, 3);
    assert_eq!(db.relationships.len(), 1);
    assert_eq!(RelationshipKind::Mandatory.as_str(), "mandatory");
    assert_eq!(RelationshipKind::Recommended.as_str(), "recommended");
    assert_eq!(RelationshipKind::from_str("mandatory"), RelationshipKind::Mandatory);
    assert_eq!(RelationshipKind::from_str("anything"), RelationshipKind::Recommended);
    assert_eq!(RelationshipKind::from_db("mandatory".to_string()), RelationshipKind::Mandatory);
}

#[test]
fn absences_cover_their_days() {
    let mut db = Store::new();
    let a = create_absence(&mut db, 1, "2025-01-05", "2025-01-07", Some("trip"));
    let b = create_absence(&mut db, 2, "2025-02-01", "2025-02-01", None);
    assert_eq!((a, b), (1, 2));
    assert!(!is_absent_on(&db, 1, "2025-01-04"));
    assert!(is_absent_on(&db, 1, "2025-01-05"));
    assert!(is_absent_on(&db, 1, "2025-01-06"));
    assert!(is_absent_on(&db, 1, "2025-01-07"));
    assert!(!is_absent_on(&db, 1, "2025-01-08"));
    assert!(!is_absent_on(&db, 2, "2025-01-06"));
    assert!(is_absent_on(&db, 2, "2025-02-01"));
    assert_eq!(list_absences(&db).len(), 2);
    assert_eq!(list_future_absences(&db, "2025-01-08").len(), 1);
    assert_eq!(list_future_absences(&db, "2025-01-08")[0].id, b);
    assert_eq!(list_future_absences(&db, "2025-01-07").len(), 2);
    update_absence(&mut db, a, 3, "2025-03-01", "2025-03-02", None);
    assert_eq!(db.absences[0].publisher_id, 3);
    assert_eq!(db.absences[0].start_date, "2025-03-01");
    assert_eq!(db.absences[0].description, None);
    update_absence(&mut db, 50, 3, "2025-03-01", "2025-03-02", None);
    assert_eq!(db.absences.len(), 2);
    cleanup_expired_absences(&mut db, "2025-02-02");
    assert_eq!(db.absences.len(), 1);
    assert_eq!(db.absences[0].id, a);
    delete_absence(&mut db, a);
    assert_eq!(db.absences.len(), 0);
    assert_eq!(create_absence(&mut db, 1, "2025-01-05", "2025-01-07", None), 3);
}

#[test]
fn shifts_are_listed_by_start_within_a_span() {
    let mut db = Store::new();
    let a = create_shift(&mut db, "2025-01-07 09:00:00", "2025-01-07 12:00:00", "A", &[1, 2], None);
    let b = create_shift(&mut db, "2025-01-06 14:00:00", "2025-01-06 16:00:00", "B", &[3], Some("w"));
    let c = create_shift(&mut db, "2025-01-06 09:00:00", "2025-01-06 12:00:00", "C", &[], None);
    let d = create_shift(&mut db, "2025-02-01 09:00:00", "2025-02-01 12:00:00", "D", &[4], None);
    assert_eq!((a, b, c, d), (1, 2, 3, 4));
    let ids: Vec<i64> = list_shifts_between(&db, "2025-01-06 00:00:00", "2025-01-07 23:59:59")
        .iter()
        .map(|s| s.id)
        .collect();
    assert_eq!(ids, vec![c, b, a]);
    assert_eq!(list_shifts_between(&db, "2025-01-06 10:00:00", "2025-01-06 23:59:59").len(), 1);
    update_shift_publishers(&mut db, b, &[9, 8], None);
    assert_eq!(db.shifts[1].publishers, vec![9, 8]);
    assert_eq!(db.shifts[1].warning, None);
    assert_eq!(db.shifts[1].location, "B");
    update_shift_datetime(&mut db, c, "2025-01-06 10:00:00", "2025-01-06 11:00:00", Some("moved"));
    assert_eq!(db.shifts[2].start_datetime, "2025-01-06 10:00:00");
    assert_eq!(db.shifts[2].warning.as_deref(), Some("moved"));
    assert_eq!(db.shifts[2].location, "C");
    update_shift_datetime_location(&mut db, a, "2025-01-08 09:00:00", "2025-01-08 12:00:00", "Z", None);
    assert_eq!(db.shifts[0].location, "Z");
    assert_eq!(db.shifts[0].publishers, vec![1, 2]);
    update_shift_publishers(&mut db, 99, &[1], None);
    assert_eq!(db.shifts.len(), 4);
    delete_shift(&mut db, b);
    assert_eq!(db.shifts.len(), 3);
    assert_eq!(delete_shifts_in_range(&mut db, "2025-01-01 00:00:00", "2025-01-31 23:59:59"), 2);
    assert_eq!(db.shifts.len(), 1);
    assert_eq!(db.shifts[0].id, d);
    assert_eq!(delete_shifts_in_range(&mut db, "2025-01-01 00:00:00", "2025-01-31 23:59:59"), 0);
}

#[test]
fn settings_have_defaults() {
    let mut db = Store::new();
    assert!(!configuration_is_set(&db));
    assert_eq!(get_name_order(&db), "first_last");
    assert!(get_configuration(&db).is_none());
    update_configuration(&mut db, "  ", "Dark", "", "", "", "");
    assert!(!configuration_is_set(&db));
    let cfg = get_configuration(&db).unwrap();
    assert_eq!(cfg.theme, "Dark");
    assert_eq!(cfg.name_order, "first_last");
    assert_eq!(cfg.week_start, "monday");
    assert_eq!(cfg.language, "system");
    assert_eq!(cfg.date_format, "YYYY-MM-DD");
    update_configuration(&mut db, "Congregation", "Dark", "last_first", "sunday", "de", "DD/MM/YYYY");
    assert!(!configuration_is_set(&db));
    assert_eq!(get_name_order(&db), "last_first");
    update_configuration(&mut db, " North ", "Dark", "last_first", "sunday", "de", "DD/MM/YYYY");
    assert!(configuration_is_set(&db));
    assert!(name_is_set("North"));
    assert!(name_is_set(" North "));
    assert!(!name_is_set("   "));
    assert!(!name_is_set(""));
    assert!(!name_is_set("\t\u{a0}\u{2003}\u{3000}\n"));
    assert!(name_is_set("\u{200b}"));
    assert!(!name_is_set("Congregation"));
    assert_eq!(default_name_order(), "first_last");
    assert_eq!(default_week_start(), "monday");
    assert_eq!(default_language(), "system");
    assert_eq!(default_date_format(), "YYYY-MM-DD");
    create_publisher(&mut db, "A", "B", "Male", false, 1);
    assert!(reset_data(&mut db));
    assert_eq!(db, Store::new());
}

#[test]
fn a_backup_is_taken_in_again() {
    let mut db = Store::new();
    let p = create_publisher(&mut db, "A", "B", "Male", false, 1);
    let q = create_publisher(&mut db, "C", "D", "Female", false, 2);
    let s = create_schedule(&mut db, &schedule("Monday", "09:00")).unwrap();
    set_publisher_availability(&mut db, p, &[s]);
    create_absence(&mut db, q, "2025-01-05", "2025-01-07", Some("trip"));
    create_shift(&mut db, "2025-01-06 09:00:00", "2025-01-06 12:00:00", "A", &[p], None);
    add_relationship(&mut db, p, q, RelationshipKind::Mandatory);
    update_configuration(&mut db, "North", "Dark", "", "", "", "");
    let backup = export_data(&db);
    assert_eq!(backup.publishers, db.publishers);
    assert_eq!(backup.availability, vec![AvailabilityExport(p, s)]);
    assert_eq!(backup.relationships, vec![RelationshipExport(p, q, "mandatory".to_string())]);
    assert_eq!(backup.absences[0].start_date, "2025-01-05");
    assert_eq!(backup.next_id, 3);
    let mut other = Store::new();
    update_configuration(&mut other, "South", "Light", "", "", "", "");
    assert!(import_data(&mut other, backup.clone()));
    assert_eq!(other.publishers, db.publishers);
    assert_eq!(other.schedules, db.schedules);
    assert_eq!(other.availability, db.availability);
    assert_eq!(other.absences, db.absences);
    assert_eq!(other.shifts, db.shifts);
    assert_eq!(other.relationships, db.relationships);
    assert_eq!(other.next_id, 3);
    assert_eq!(other.configuration.as_ref().unwrap().congregation_name, "South");
    // Rows that come out of order are put in the order of their ids.
    let mut shuffled = backup.clone();
    shuffled.publishers.swap(0, 1);
    assert!(import_data(&mut other, shuffled));
    assert_eq!(other.publishers, db.publishers);
    // A next id that lies too low is raised above the ids in the table.
    let mut stale = backup.clone();
    stale.next_shift_id = 1;
    assert!(import_data(&mut other, stale));
    assert_eq!(other.next_shift_id, 2);
    assert_eq!(other.shifts, db.shifts);
    // Only an id that occurs twice, or the last number as an id, is refused.
    let mut twice = backup.clone();
    twice.publishers[1].id = twice.publishers[0].id;
    let before = other.clone();
    assert!(!import_data(&mut other, twice));
    assert_eq!(other, before);
    let mut last = backup;
    last.schedules[0].id = i64::MAX;
    assert!(!import_data(&mut other, last));
    assert_eq!(other, before);
    let empty = ExportPayload {
        publishers: vec![],
        next_id: 0,
        schedules: vec![],
        next_schedule_id: -5,
        availability: vec![],
        absences: Vec::<AbsenceExport>::new(),
        next_absence_id: 0,
        shifts: vec![],
        next_shift_id: 0,
        relationships: vec![],
    };
    assert!(import_data(&mut other, empty));
    assert_eq!(other.next_id, 1);
    assert_eq!(other.next_schedule_id, 1);
    assert_eq!(arrange(&vec![5, 1, 3], 2), Some((vec![1, 2, 0], 6)));
    assert_eq!(arrange(&vec![5, 1, 3], 9), Some((vec![1, 2, 0], 9)));
    assert_eq!(arrange(&vec![], -4), Some((vec![], 1)));
    assert_eq!(arrange(&vec![5, 1, 5], 2), None);
    assert_eq!(arrange(&vec![i64::MAX], 2), None);
    assert_eq!(sort_ids(&vec![3, -1, 3, 0]), vec![1, 3, 0, 2]);
}
