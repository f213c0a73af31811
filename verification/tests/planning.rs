use shift_planner::fairness::Fairness;
use shift_planner::ranking::{choose_first, take_leading, Ranked, Score};
use shift_planner::repair::{
    include_partners, is_locked, note, plan_shift, removable_of, remove_all, repair,
    shed_managers, trim, Lock, Warning,
};
use shift_planner::roster::{
    are_bound, count_role, member_in_role, member_priority, relation_between, Gender, Member,
    Quota, Relation, RelationshipKind, Role,
};
use shift_planner::scoring::{jitter, Context};
use shift_planner::selection::{draw, eligible_of, select_greedy};

fn man(id: i64, priority: i64) -> Member {
    Member { id, gender: Gender::Male, shift_manager: false, priority }
}

fn manager(id: i64, priority: i64) -> Member {
    Member { id, gender: Gender::Male, shift_manager: true, priority }
}

fn woman(id: i64, priority: i64) -> Member {
    Member { id, gender: Gender::Female, shift_manager: false, priority }
}

fn quota(capacity: usize, managers: usize, brothers: usize, sisters: usize) -> Quota {
    Quota { capacity, managers, brothers, sisters }
}

fn bond(a: i64, b: i64) -> Relation {
    Relation { a, b, kind: RelationshipKind::Mandatory }
}

fn hint(a: i64, b: i64) -> Relation {
    Relation { a, b, kind: RelationshipKind::Recommended }
}

fn sorted(v: &[i64]) -> Vec<i64> {
    let mut w = v.to_vec();
    w.sort();
    w
}

#[test]
fn jitter_has_known_values() {
    assert_eq!(jitter(0, 0, 0), 0);
    assert_eq!(jitter(1, 2, 3), 13540396908189009229);
    assert_eq!(jitter(42, 8697308839942, 7), 6150706765967264844);
    assert_eq!(jitter(42, 8697308839942, -1), 14445573004935506440);
}

#[test]
fn score_follows_the_formula() {
    let roster = vec![man(1, 5), man(2, 5), man(3, 0)];
    let rels = vec![bond(1, 2), hint(1, 3)];
    let mut fairness = Fairness::new();
    fairness.record(&vec![1, 2]);
    fairness.record(&vec![1]);
    fairness.record(&vec![2, 3]);
    let ctx = Context { roster: &roster, rels: &rels, fairness: &fairness, seed: 42, day: 8697308839942 };
    // 10 * 5 points, nothing selected yet, two recent shifts: 50 - 4 = 46 points.
    let alone = ctx.score(1, &vec![]);
    assert_eq!(alone.half, 92);
    assert_eq!(alone.jitter, jitter(42, 8697308839942, 1));
    // Beside 2: mandatory bonus 5, one shared shift 1.5: 46 + 5 - 1.5 = 49.5 points.
    assert_eq!(ctx.score(1, &vec![2]).half, 99);
    // Beside 2 and 3: recommended bonus 2 more, no shift shared with 3: 51.5 points.
    assert_eq!(ctx.score(1, &vec![2, 3]).half, 103);
    // Somebody unknown has priority 0 and no history.
    assert_eq!(ctx.score(9, &vec![1]).half, 0);
    assert_eq!(ctx.bonus(1, &vec![2, 3]), 7);
}

#[test]
fn scores_compare_by_value() {
    let low = Score { half: 10, jitter: u64::MAX };
    let high = Score { half: 16, jitter: 0 };
    assert!(high.exceeds(&low));
    assert!(!low.exceeds(&high));
    // Five half points are less than the full span of the jitter.
    let close = Score { half: 15, jitter: 0 };
    assert!(low.exceeds(&close));
    let same = Score { half: 10, jitter: u64::MAX };
    assert!(!low.exceeds(&same));
    let huge = Score { half: i128::MAX, jitter: 0 };
    let tiny = Score { half: i128::MIN, jitter: u64::MAX };
    assert!(huge.exceeds(&tiny));
    assert!(!tiny.exceeds(&huge));
}

#[test]
fn deterministic_tie_break() {
    let score = Score { half: 100, jitter: 12345 };
    let entries = vec![Ranked { id: 7, score }, Ranked { id: 3, score }];
    assert_eq!(choose_first(&entries, false), Some(1));
    assert_eq!(take_leading(entries.clone(), 1, false), vec![3]);
    assert_eq!(take_leading(entries.clone(), 5, false), vec![3, 7]);
    // The last in rank is the one with the higher id.
    assert_eq!(take_leading(entries, 1, true), vec![7]);
    // A higher score wins over a lower id.
    let better = Score { half: 100, jitter: 12346 };
    let entries = vec![Ranked { id: 3, score }, Ranked { id: 7, score: better }];
    assert_eq!(take_leading(entries, 1, false), vec![7]);
    assert_eq!(choose_first(&Vec::new(), false), None);
}

#[test]
fn leading_takes_the_highest_scores_first() {
    let entries = vec![
        Ranked { id: 1, score: Score { half: 10, jitter: 0 } },
        Ranked { id: 2, score: Score { half: 30, jitter: 0 } },
        Ranked { id: 3, score: Score { half: 20, jitter: 0 } },
        Ranked { id: 4, score: Score { half: 20, jitter: 1 } },
    ];
    assert_eq!(take_leading(entries.clone(), 3, false), vec![2, 4, 3]);
    assert_eq!(take_leading(entries.clone(), 2, true), vec![1, 3]);
    assert_eq!(take_leading(entries, 0, false), Vec::<i64>::new());
}

#[test]
fn fairness_counts_shifts_not_entries() {
    let mut fairness = Fairness::new();
    assert_eq!(fairness.recent(1), 0);
    fairness.record(&vec![1, 1, 2]);
    fairness.record(&vec![2, 3]);
    fairness.record(&vec![1, 2, 3]);
    assert_eq!(fairness.recent(1), 2);
    assert_eq!(fairness.recent(2), 3);
    assert_eq!(fairness.recent(9), 0);
    assert_eq!(fairness.together(1, 2), 2);
    assert_eq!(fairness.together(2, 1), 2);
    assert_eq!(fairness.together(1, 1), 0);
    assert_eq!(fairness.together(1, 3), 1);
    assert_eq!(fairness.together_with_all(2, &vec![1, 3, 9]), 4);
}

#[test]
fn roster_lookups() {
    let roster = vec![manager(1, 9), man(2, 4), woman(3, 7)];
    assert!(member_in_role(&roster, 1, Role::Manager));
    assert!(member_in_role(&roster, 1, Role::Male));
    assert!(!member_in_role(&roster, 1, Role::PlainMale));
    assert!(member_in_role(&roster, 2, Role::PlainMale));
    assert!(!member_in_role(&roster, 2, Role::Manager));
    assert!(member_in_role(&roster, 3, Role::Female));
    assert!(!member_in_role(&roster, 3, Role::Male));
    assert!(member_in_role(&roster, 99, Role::Anyone));
    assert!(!member_in_role(&roster, 99, Role::Male));
    assert_eq!(member_priority(&roster, 3), 7);
    assert_eq!(member_priority(&roster, 99), 0);
    assert_eq!(count_role(&roster, &vec![1, 2, 3], Role::Male), 2);
    assert_eq!(count_role(&roster, &vec![1, 2, 3], Role::Manager), 1);
    assert_eq!(count_role(&roster, &vec![1, 2, 3], Role::Female), 1);
    let rels = vec![hint(1, 2), bond(2, 3)];
    assert!(are_bound(&rels, 2, 3));
    assert!(are_bound(&rels, 3, 2));
    assert!(!are_bound(&rels, 1, 2));
    assert_eq!(relation_between(&rels, 2, 1), Some(RelationshipKind::Recommended));
    assert_eq!(relation_between(&rels, 3, 2), Some(RelationshipKind::Mandatory));
    assert_eq!(relation_between(&rels, 1, 3), None);
}

#[test]
fn greedy_fills_managers_brothers_sisters_then_the_rest() {
    let roster = vec![manager(1, 1), man(2, 9), man(3, 8), woman(4, 2), woman(5, 3), man(6, 7)];
    let rels = vec![];
    let fairness = Fairness::new();
    let ctx = Context { roster: &roster, rels: &rels, fairness: &fairness, seed: 0, day: 0 };
    let pool = vec![1, 2, 3, 4, 5, 6];
    let sel = select_greedy(&ctx, &pool, &quota(5, 1, 2, 1));
    // The manager, one more man by score, the best woman, then the two best of the rest.
    assert_eq!(sel, vec![1, 2, 5, 3, 6]);
    assert_eq!(eligible_of(&roster, &pool, &vec![1, 2], Role::Male), vec![3, 6]);
    assert_eq!(draw(&ctx, &pool, vec![1], Role::Female, 5), vec![1, 5, 4]);
}

#[test]
fn partners_are_included_once() {
    let rels = vec![bond(1, 2), bond(1, 3), hint(1, 4), bond(2, 5)];
    // 3 is no candidate; 5 is the partner of a partner and is not drawn in.
    assert_eq!(include_partners(&rels, &vec![1, 2, 4, 5], vec![1]), vec![1, 2]);
    assert_eq!(include_partners(&rels, &vec![1, 2, 3, 5], vec![2, 1]), vec![2, 1, 5, 3]);
    assert!(is_locked(&rels, &vec![1, 2, 4], 1));
    assert!(is_locked(&rels, &vec![1, 2, 4], 2));
    assert!(!is_locked(&rels, &vec![1, 2, 4], 4));
    assert!(!is_locked(&rels, &vec![1, 4], 1));
    assert!(!is_locked(&rels, &vec![1, 2], 3));
    assert_eq!(remove_all(&vec![1, 2, 3, 4], &vec![2, 4, 9]), vec![1, 3]);
    let lock = Lock::of(&rels, &vec![1, 2, 4]);
    assert!(lock.holds(1) && lock.holds(2));
    assert!(!lock.holds(4) && !lock.holds(3) && !lock.holds(5));
    let roster = vec![man(1, 0), man(2, 0), woman(4, 0)];
    assert_eq!(removable_of(&roster, &lock, &vec![4, 2, 1], Role::Anyone), vec![4]);
    assert_eq!(removable_of(&roster, &lock, &vec![4, 2, 1], Role::Male), Vec::<i64>::new());
}

#[test]
fn first_warning_stays_unless_the_new_one_is_severe() {
    assert_eq!(note(None, Warning::NotEnough), Some(Warning::NotEnough));
    assert_eq!(note(Some(Warning::FewerSisters), Warning::NotEnough), Some(Warning::FewerSisters));
    assert_eq!(
        note(Some(Warning::FewerSisters), Warning::CapacityCompromise),
        Some(Warning::CapacityCompromise)
    );
    assert_eq!(
        note(Some(Warning::CapacityCompromise), Warning::Trimmed),
        Some(Warning::CapacityCompromise)
    );
    assert_eq!(Warning::NotEnough.message(), "not enough available publishers");
    assert_eq!(
        Warning::ManagersLocked.message(),
        "could not reduce extra managers due to mandatory pairs"
    );
    assert_eq!(Warning::FewerSisters.message(), "fewer sisters available than required");
    assert_eq!(Warning::NoRoomForSister.message(), "cannot free slot to add required sister");
    assert_eq!(Warning::Trimmed.message(), "trimmed extra selections to fit capacity");
}

#[test]
fn warning_managers_locked() {
    let roster = vec![woman(1, 5), manager(2, 5)];
    let rels = vec![bond(1, 2)];
    let fairness = Fairness::new();
    let ctx = Context { roster: &roster, rels: &rels, fairness: &fairness, seed: 3, day: 1 };
    let plan = plan_shift(&ctx, &vec![1, 2], &quota(2, 0, 0, 1));
    assert_eq!(plan.publishers, vec![1, 2]);
    assert_eq!(plan.warning, Some(Warning::ManagersLocked));
}

#[test]
fn surplus_managers_leave_from_the_lowest_rank() {
    let roster = vec![manager(1, 5), manager(2, 9), manager(3, 1), man(4, 0)];
    let rels = vec![];
    let fairness = Fairness::new();
    let ctx = Context { roster: &roster, rels: &rels, fairness: &fairness, seed: 3, day: 1 };
    let held = vec![1, 2, 3, 4];
    let (sel, warning) = shed_managers(&ctx, &quota(4, 1, 0, 0), &held, held.clone());
    assert_eq!(sel, vec![2, 4]);
    assert_eq!(warning, None);
}

#[test]
fn warning_fewer_sisters() {
    let roster = vec![man(1, 5)];
    let rels = vec![];
    let fairness = Fairness::new();
    let ctx = Context { roster: &roster, rels: &rels, fairness: &fairness, seed: 3, day: 1 };
    let plan = plan_shift(&ctx, &vec![1], &quota(1, 0, 0, 1));
    assert_eq!(plan.publishers, vec![1]);
    assert_eq!(plan.warning, Some(Warning::FewerSisters));
}

#[test]
fn warning_fewer_brothers() {
    let roster = vec![woman(1, 5)];
    let rels = vec![];
    let fairness = Fairness::new();
    let ctx = Context { roster: &roster, rels: &rels, fairness: &fairness, seed: 3, day: 1 };
    let plan = plan_shift(&ctx, &vec![1], &quota(1, 0, 1, 0));
    assert_eq!(plan.publishers, vec![1]);
    assert_eq!(plan.warning, Some(Warning::FewerBrothers));
}

#[test]
fn warning_no_room_for_sister() {
    let roster = vec![woman(1, 5), man(2, 5), man(3, 5)];
    let rels = vec![bond(2, 3)];
    let fairness = Fairness::new();
    let ctx = Context { roster: &roster, rels: &rels, fairness: &fairness, seed: 3, day: 1 };
    let plan = repair(&ctx, &vec![1, 2, 3], &quota(2, 0, 0, 1), vec![2, 3]);
    assert_eq!(plan.publishers, vec![2, 3]);
    assert_eq!(plan.warning, Some(Warning::NoRoomForSister));
}

#[test]
fn a_sister_takes_the_place_of_the_lowest_ranked_man() {
    let roster = vec![woman(1, 5), man(2, 5), man(3, 9), manager(4, 0)];
    let rels = vec![];
    let fairness = Fairness::new();
    let ctx = Context { roster: &roster, rels: &rels, fairness: &fairness, seed: 3, day: 1 };
    // The manager ranks lowest, but men who are no managers leave first.
    let plan = repair(&ctx, &vec![1, 2, 3, 4], &quota(3, 1, 0, 1), vec![4, 2, 3]);
    assert_eq!(plan.publishers, vec![4, 3, 1]);
    assert_eq!(plan.warning, None);
}

#[test]
fn warning_no_room_for_brother() {
    let roster = vec![manager(1, 5), woman(2, 5), woman(3, 5)];
    let rels = vec![bond(2, 3)];
    let fairness = Fairness::new();
    let ctx = Context { roster: &roster, rels: &rels, fairness: &fairness, seed: 3, day: 1 };
    let plan = plan_shift(&ctx, &vec![1, 2, 3], &quota(2, 0, 1, 0));
    assert_eq!(sorted(&plan.publishers), vec![2, 3]);
    assert_eq!(plan.warning, Some(Warning::NoRoomForBrother));
}

#[test]
fn warning_trimmed() {
    let roster = vec![man(1, 10), man(2, 1), man(3, 5)];
    let rels = vec![bond(1, 2)];
    let fairness = Fairness::new();
    let ctx = Context { roster: &roster, rels: &rels, fairness: &fairness, seed: 3, day: 1 };
    let plan = plan_shift(&ctx, &vec![1, 2, 3], &quota(2, 0, 0, 0));
    assert_eq!(plan.publishers, vec![1, 2]);
    assert_eq!(plan.warning, Some(Warning::Trimmed));
}

#[test]
fn warning_capacity_compromise() {
    let roster = vec![man(1, 10), man(2, 1)];
    let rels = vec![bond(1, 2)];
    let fairness = Fairness::new();
    let ctx = Context { roster: &roster, rels: &rels, fairness: &fairness, seed: 3, day: 1 };
    let plan = plan_shift(&ctx, &vec![1, 2], &quota(1, 0, 0, 0));
    assert_eq!(plan.publishers, vec![1]);
    assert_eq!(plan.warning, Some(Warning::CapacityCompromise));
    let (kept, warning) = trim(&ctx, &quota(1, 0, 0, 0), vec![1, 2], Some(Warning::FewerSisters));
    assert_eq!(kept, vec![1]);
    assert_eq!(warning, Some(Warning::CapacityCompromise));
}

#[test]
fn warning_not_enough() {
    let roster = vec![man(1, 10), man(2, 1)];
    let rels = vec![];
    let fairness = Fairness::new();
    let ctx = Context { roster: &roster, rels: &rels, fairness: &fairness, seed: 3, day: 1 };
    let plan = plan_shift(&ctx, &vec![1, 2], &quota(3, 0, 0, 0));
    assert_eq!(plan.publishers, vec![1, 2]);
    assert_eq!(plan.warning, Some(Warning::NotEnough));
    let none = plan_shift(&ctx, &vec![], &quota(0, 0, 0, 0));
    assert_eq!(none.publishers, Vec::<i64>::new());
    assert_eq!(none.warning, None);
}

#[test]
fn managers_come_back_when_only_managers_are_left_for_the_brothers() {
    // Two managers are drawn as brothers, leave as surplus managers, and one
    // comes back because a brother is still missing.
    let roster = vec![manager(1, 9), manager(2, 8), man(3, 1), woman(4, 0)];
    let rels = vec![bond(3, 4)];
    let fairness = Fairness::new();
    let ctx = Context { roster: &roster, rels: &rels, fairness: &fairness, seed: 3, day: 1 };
    let plan = plan_shift(&ctx, &vec![1, 2, 3, 4], &quota(2, 0, 2, 0));
    assert_eq!(plan.publishers, vec![3, 1]);
    assert_eq!(plan.warning, None);
    assert_eq!(count_role(&roster, &plan.publishers, Role::Manager), 1);
}

#[test]
fn the_partner_of_a_partner_is_not_drawn_in() {
    // The manager and 2 are selected; 3 comes in as the partner of 2, the
    // manager leaves as surplus, and 4, bound to 3 only, stays out.
    let roster = vec![manager(1, 9), man(2, 8), man(3, 1), man(4, 0)];
    let rels = vec![bond(2, 3), bond(3, 4)];
    let fairness = Fairness::new();
    let ctx = Context { roster: &roster, rels: &rels, fairness: &fairness, seed: 3, day: 1 };
    let plan = plan_shift(&ctx, &vec![1, 2, 3, 4], &quota(2, 0, 0, 0));
    assert_eq!(plan.publishers, vec![2, 3]);
    assert_eq!(plan.warning, None);
}
