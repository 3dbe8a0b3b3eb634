use scolia_calendar::greedy::{
    generate_greedy_planning, greedy_schedule, quotas_for_hours, slots_for_hours,
};
use scolia_calendar::conflicts::get_conflict;

#[test]
fn generate_planning_test() {
    let planning = vec![0, -1, 0, 0, -1, -1, -1];

    let subjects = vec![0];
    let todo = vec![4];
    let unavailable: Vec<Vec<usize>> = vec![vec![1]];
    let length: Vec<usize> = unavailable.iter().map(|inner_vec| inner_vec.len()).collect();
    let flat: Vec<usize> = unavailable.into_iter().flatten().collect();

    let new_planning = generate_greedy_planning(7, 3, 90, subjects.len(), &todo, &flat, &length);
    assert_eq!(planning, new_planning);
}

#[test]
fn greedy_placer_gives_the_same_schedule_for_the_same_inputs() {
    let todo = vec![3, 2, 4];
    let flat: Vec<usize> = vec![0, 2, 5, 1];
    let length: Vec<usize> = vec![2, 1, 1];
    let first = generate_greedy_planning(9, 6, 60, 3, &todo, &flat, &length);
    let second = generate_greedy_planning(9, 6, 60, 3, &todo, &flat, &length);
    assert_eq!(first, second);
    assert_eq!(first, vec![1, 0, 1, 0, 0, 2, 2, 2, 2]);
}

#[test]
fn quota_stops_a_subject_before_the_cap() {
    let schedule = greedy_schedule(1, &[2], 7, 3, &[vec![1]]);
    assert_eq!(schedule, vec![0, -1, 0, -1, -1, -1, -1]);
}

#[test]
fn subjects_take_what_earlier_ones_left() {
    let unavailable: Vec<Vec<usize>> = vec![vec![0], vec![1]];
    let schedule = greedy_schedule(2, &[2, 2], 5, 3, &unavailable);
    assert_eq!(schedule, vec![1, 0, 0, 1, -1]);
}

#[test]
fn too_few_slots_are_no_failure() {
    let schedule = greedy_schedule(1, &[5], 3, 5, &[vec![0, 1, 2]]);
    assert_eq!(schedule, vec![-1, -1, -1]);
    let schedule = greedy_schedule(2, &[3, 3], 4, 5, &[]);
    assert_eq!(schedule, vec![0, 0, 0, 1]);
}

#[test]
fn no_quota_or_no_cap_places_nothing() {
    assert_eq!(greedy_schedule(1, &[0], 3, 5, &[]), vec![-1, -1, -1]);
    assert_eq!(greedy_schedule(1, &[2], 3, 0, &[]), vec![-1, -1, -1]);
    assert_eq!(greedy_schedule(2, &[0, 1], 3, 5, &[]), vec![1, -1, -1]);
}

#[test]
fn no_subjects_or_no_slots() {
    assert_eq!(greedy_schedule(0, &[], 3, 5, &[]), vec![-1, -1, -1]);
    assert_eq!(greedy_schedule(2, &[1, 1], 0, 5, &[]), Vec::<i32>::new());
}

#[test]
fn only_the_first_subjects_are_placed() {
    assert_eq!(greedy_schedule(1, &[1, 1], 3, 5, &[]), vec![0, -1, -1]);
}

#[test]
fn a_subject_without_a_group_can_be_taught_anywhere() {
    let unavailable: Vec<Vec<usize>> = vec![vec![0, 1]];
    let schedule = greedy_schedule(2, &[1, 2], 4, 5, &unavailable);
    assert_eq!(schedule, vec![1, 1, 0, -1]);
}

#[test]
fn unavailable_slots_outside_the_week_do_nothing() {
    let schedule = greedy_schedule(1, &[2], 3, 5, &[vec![7, 1, 1]]);
    assert_eq!(schedule, vec![0, -1, 0]);
}

#[test]
fn placement_is_free_of_overlap_and_respects_unavailability() {
    let unavailable: Vec<Vec<usize>> = vec![vec![0, 3, 4], vec![1, 2, 9], vec![], vec![5, 6, 7, 8]];
    let quota: Vec<usize> = vec![3, 4, 2, 6];
    let schedule = greedy_schedule(4, &quota, 12, 4, &unavailable);
    assert_eq!(schedule, vec![1, 0, 0, 1, 1, 0, 1, 2, 2, 3, 3, 3]);
    for (slot, &entry) in schedule.iter().enumerate() {
        assert!(entry >= -1 && entry < 4);
        if entry >= 0 {
            assert!(!unavailable[entry as usize].contains(&slot));
        }
    }
    for s in 0..4 {
        let taken = schedule.iter().filter(|&&e| e == s as i32).count();
        assert!(taken <= quota[s] && taken <= 4);
    }
    let (conflict_count, index_conflicts) = get_conflict(&schedule, &unavailable, &quota);
    assert_eq!(conflict_count, 0);
    assert!(index_conflicts.is_empty());
}

#[test]
fn hours_become_slots() {
    assert_eq!(slots_for_hours(4, 90), 4);
    assert_eq!(slots_for_hours(4, 60), 4);
    assert_eq!(slots_for_hours(4, 120), 2);
    assert_eq!(slots_for_hours(5, 120), 2);
    assert_eq!(slots_for_hours(0, 120), 0);
    assert_eq!(slots_for_hours(1, 180), 0);
    assert_eq!(slots_for_hours(u32::MAX, 60), u32::MAX as usize);
    assert_eq!(quotas_for_hours(&[4, 5, 0], 120), vec![2, 2, 0]);
    assert_eq!(quotas_for_hours(&[], 120), Vec::<usize>::new());
}

#[test]
fn a_slot_of_less_than_an_hour_sets_no_limit() {
    assert_eq!(slots_for_hours(3, 59), usize::MAX);
    assert_eq!(slots_for_hours(1, 0), usize::MAX);
    let schedule = generate_greedy_planning(4, 1, 30, 2, &[1, 1], &[2], &[1, 0]);
    assert_eq!(schedule, vec![0, 0, 1, 0]);
}

#[test]
fn no_hours_make_no_slots_whatever_the_slot() {
    assert_eq!(slots_for_hours(0, 0), 0);
    assert_eq!(slots_for_hours(0, 30), 0);
    assert_eq!(slots_for_hours(0, 59), 0);
    assert_eq!(slots_for_hours(0, 60), 0);
    assert_eq!(slots_for_hours(0, 90), 0);
    assert_eq!(quotas_for_hours(&[0, 2, 0], 30), vec![0, usize::MAX, 0]);
}

#[test]
fn a_subject_with_no_hours_to_do_gets_no_slot() {
    assert_eq!(generate_greedy_planning(1, 1, 30, 1, &[0], &[], &[0]), vec![-1]);
    assert_eq!(generate_greedy_planning(3, 5, 30, 2, &[0, 1], &[], &[0, 0]), vec![1, 1, 1]);
    assert_eq!(generate_greedy_planning(3, 5, 60, 2, &[0, 1], &[], &[0, 0]), vec![1, -1, -1]);
    // a week without hours caps every subject at no slot
    assert_eq!(generate_greedy_planning(3, 0, 30, 2, &[2, 1], &[], &[0, 0]), vec![-1, -1, -1]);
}

#[test]
fn a_schedule_names_a_limited_number_of_subjects() {
    assert_eq!(scolia_calendar::model::named_subjects(0), 0);
    assert_eq!(scolia_calendar::model::named_subjects(7), 7);
    assert_eq!(scolia_calendar::model::named_subjects(0x7FFF_FFFF), 0x7FFF_FFFF);
    assert_eq!(scolia_calendar::model::named_subjects(0x8000_0000), 0x8000_0000);
    assert_eq!(scolia_calendar::model::named_subjects(0x8000_0001), 0x8000_0000);
    assert_eq!(scolia_calendar::model::named_subjects(usize::MAX), 0x8000_0000);
}

#[test]
fn longer_slots_lower_quota_and_cap() {
    // 5 hours in slots of two hours are 2 slots, a cap of 3 hours is 1 slot
    let schedule = generate_greedy_planning(5, 3, 120, 2, &[5, 5], &[], &[0, 0]);
    assert_eq!(schedule, vec![0, 1, -1, -1, -1]);
    let schedule = generate_greedy_planning(5, 9, 120, 2, &[5, 3], &[], &[0, 0]);
    assert_eq!(schedule, vec![0, 0, 1, -1, -1]);
}
