use scolia_calendar::allocation::calculate_weekly_subject_hours;

#[test]
fn test_calculate_weekly_subject_hours() {
    let all_subjects: Vec<u32> = vec![0, 1, 2, 3];
    let total_hours_needed: Vec<u32> = vec![50, 30, 40, 20];
    let hours_done: Vec<u32> = vec![10, 5, 25, 2];
    let max_weekly_hours = 35;
    let cap_per_subject = 8;

    let allocated_hours = calculate_weekly_subject_hours(
        all_subjects.len(),
        &total_hours_needed,
        &hours_done,
        max_weekly_hours,
        cap_per_subject,
    );

    println!("hours of the week: {:?}", allocated_hours);
    let total_allocated: u32 = allocated_hours.iter().sum();
    assert!(total_allocated <= max_weekly_hours);
    println!("sum of the hours: {}", total_allocated);
    assert!(allocated_hours.iter().all(|&h| h <= cap_per_subject));
    assert_eq!(allocated_hours, vec![8, 8, 8, 8]);
}

#[test]
fn test_no_subjects() {
    let total_hours: Vec<u32> = Vec::new();
    let done_hours: Vec<u32> = Vec::new();
    let allocated = calculate_weekly_subject_hours(0, &total_hours, &done_hours, 35, 8);
    assert!(allocated.is_empty());
}

#[test]
fn test_all_hours_done() {
    let subjects: Vec<u32> = vec![0];
    let total_hours: Vec<u32> = vec![10];
    let done_hours: Vec<u32> = vec![10];
    let allocated =
        calculate_weekly_subject_hours(subjects.len(), &total_hours, &done_hours, 35, 8);
    assert_eq!(allocated[0], 0);
}

#[test]
fn more_hours_done_than_needed_gives_none() {
    let allocated = calculate_weekly_subject_hours(2, &[5, 10], &[7, 0], 20, 8);
    assert_eq!(allocated, vec![0, 8]);
}

#[test]
fn proportional_share_is_rounded_down() {
    // weights 30, 20, 10 of 60; a budget of 10 gives 5, 3 and 1, and leaves 1
    let allocated = calculate_weekly_subject_hours(3, &[10, 10, 10], &[0, 0, 0], 10, 3);
    // the cap of 3 cuts the first share to 3; 3 hours are left over, and only
    // the last subject has room
    assert_eq!(allocated, vec![3, 3, 3]);
}

#[test]
fn left_over_hour_goes_to_the_greater_weight_on_equal_hours_done() {
    let allocated = calculate_weekly_subject_hours(3, &[10, 10, 10], &[5, 2, 2], 10, 10);
    assert_eq!(allocated, vec![5, 4, 1]);
}

#[test]
fn left_over_hour_goes_to_the_fewest_hours_done() {
    let allocated = calculate_weekly_subject_hours(3, &[10, 10, 10], &[5, 3, 2], 10, 10);
    assert_eq!(allocated, vec![5, 3, 2]);
}

#[test]
fn left_over_hours_go_round() {
    // weights 0, 12, 6 of 18; first shares 0, 4, 2; one hour left for the
    // subject with the greater weight
    assert_eq!(calculate_weekly_subject_hours(3, &[0, 6, 6], &[0, 0, 0], 7, 5), vec![0, 5, 2]);
    // first shares 0, 5, 3; the hour left goes to the only subject with room
    assert_eq!(calculate_weekly_subject_hours(3, &[0, 6, 6], &[0, 0, 0], 9, 5), vec![0, 5, 4]);
    // first shares 3 and 1 of a budget of 4 shared 9 to 3
    assert_eq!(calculate_weekly_subject_hours(2, &[9, 6], &[0, 0], 4, 8), vec![3, 1]);
}

#[test]
fn rounds_serve_every_subject_with_room_in_turn() {
    // weights 6, 6, 6 of 18: first shares 3, 3, 3, cut to the limits 2, 3, 6;
    // the 3 hours left over go to the last subject, the only one with room
    let allocated = calculate_weekly_subject_hours(3, &[2, 3, 6], &[0, 0, 0], 11, 8);
    assert_eq!(allocated, vec![2, 3, 6]);
    // weights 60, 60, 60; first shares 3, 3, 3; left over 2: subject 2 has
    // the fewest hours done, then subject 0
    let allocated = calculate_weekly_subject_hours(3, &[20, 30, 60], &[4, 9, 1], 11, 8);
    assert_eq!(allocated, vec![4, 3, 4]);
    // first shares 5, 5, 5; left over 1
    let allocated = calculate_weekly_subject_hours(3, &[20, 30, 60], &[4, 9, 1], 16, 8);
    assert_eq!(allocated, vec![5, 5, 6]);
    // first shares 5, 5, 5; left over 2
    let allocated = calculate_weekly_subject_hours(3, &[20, 30, 60], &[4, 9, 1], 17, 8);
    assert_eq!(allocated, vec![6, 5, 6]);
    // first shares 6, 6, 6; left over 2, and the first round ends before
    // subject 1
    let allocated = calculate_weekly_subject_hours(3, &[20, 30, 60], &[4, 9, 1], 20, 8);
    assert_eq!(allocated, vec![7, 6, 7]);
    // first shares 4, 4, 4; left over 2 from a budget of 14; a budget of 30
    // fills every subject to the cap and leaves 6 unspent
    let allocated = calculate_weekly_subject_hours(3, &[20, 30, 60], &[4, 9, 1], 30, 8);
    assert_eq!(allocated, vec![8, 8, 8]);
}

#[test]
fn several_rounds_go_out_before_the_budget_ends() {
    // weights 4, 2 of 6 and a budget of 1: first shares 0, 0; the hour goes
    // to subject 1, which has fewer hours done
    assert_eq!(calculate_weekly_subject_hours(2, &[2, 2], &[1, 0], 1, 8), vec![0, 1]);
    // nothing has weight but the last subject, whose share the cap cuts to 1:
    // of 9 hours left over it can take none, the others have no need
    assert_eq!(calculate_weekly_subject_hours(3, &[0, 0, 5], &[0, 0, 0], 10, 1), vec![0, 0, 1]);
    // weights 40, 30, 20, 10 of 100, budget 3: first shares 1, 0, 0, 0; two
    // hours left over go to subjects 3 and 2, by hours done
    assert_eq!(
        calculate_weekly_subject_hours(4, &[10, 10, 10, 10], &[3, 2, 1, 0], 3, 8),
        vec![1, 0, 1, 1]
    );
    // budget 9: first shares 3, 2, 1, 0, three left over: subjects 3, 2, 1
    assert_eq!(
        calculate_weekly_subject_hours(4, &[10, 10, 10, 10], &[3, 2, 1, 0], 9, 8),
        vec![3, 3, 2, 1]
    );
    // budget 19: first shares 7, 5, 3, 1, three left over: subjects 3, 2, 1
    assert_eq!(
        calculate_weekly_subject_hours(4, &[10, 10, 10, 10], &[3, 2, 1, 0], 19, 8),
        vec![7, 6, 4, 2]
    );
    // cap 2, budget 9: first shares 2, 2, 1, 0, four left over: a round gives
    // subjects 3 and 2 one each, subject 2 is then full, and the second round
    // gives subject 3 one more; one hour stays unspent
    assert_eq!(
        calculate_weekly_subject_hours(4, &[10, 10, 10, 10], &[3, 2, 1, 0], 9, 2),
        vec![2, 2, 2, 2]
    );
}

#[test]
fn no_budget_gives_no_hours() {
    assert_eq!(calculate_weekly_subject_hours(3, &[10, 20, 30], &[0, 1, 2], 0, 8), vec![0, 0, 0]);
}

#[test]
fn no_cap_room_gives_no_hours() {
    assert_eq!(calculate_weekly_subject_hours(2, &[10, 20], &[0, 1], 35, 0), vec![0, 0]);
}

#[test]
fn no_weight_gives_no_hours() {
    assert_eq!(calculate_weekly_subject_hours(3, &[0, 0, 0], &[0, 0, 0], 35, 8), vec![0, 0, 0]);
}

#[test]
fn budget_that_is_not_needed_stays_unspent() {
    let allocated = calculate_weekly_subject_hours(2, &[4, 9], &[3, 0], 20, 6);
    assert_eq!(allocated, vec![1, 6]);
}

#[test]
fn allocation_keeps_budget_cap_and_need() {
    let total: Vec<u32> = vec![40, 3, 17, 0, 25, 8];
    let done: Vec<u32> = vec![12, 3, 20, 0, 1, 2];
    for budget in [0u32, 1, 5, 13, 30, 100] {
        for cap in [0u32, 1, 4, 9] {
            let hours = calculate_weekly_subject_hours(6, &total, &done, budget, cap);
            assert_eq!(hours.len(), 6);
            assert!(hours.iter().sum::<u32>() <= budget);
            for s in 0..6 {
                assert!(hours[s] <= cap);
                assert!(hours[s] <= total[s].saturating_sub(done[s]));
            }
            assert_eq!(hours[1], 0);
            assert_eq!(hours[2], 0);
            assert_eq!(hours[3], 0);
        }
    }
}

#[test]
fn large_hours_do_not_overflow() {
    let hours =
        calculate_weekly_subject_hours(2, &[u32::MAX, u32::MAX], &[0, 0], u32::MAX, u32::MAX);
    // weights 2 and 1 of 3
    assert_eq!(hours, vec![2863311530, 1431655765]);
}
