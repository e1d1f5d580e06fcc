use art_of_rally_leaderboard_utils::model::{CarClass, Conditions, Heading, Location, Stage, StageWithLeaderboard};
use art_of_rally_leaderboard_utils::{fastest_times, split_times, DriverResult, RallyResults, StageResult};

fn stage(n: usize) -> StageWithLeaderboard {
    (
        Stage { area: Location::Norway, stage_number: n, direction: Heading::Forward },
        CarClass::Eighties,
        Conditions::Dry,
    )
}

fn res(time_ms: usize) -> Option<StageResult> {
    Some(StageResult { car: 3, time_ms, local_rank: 1, world_rank: Some(100) })
}

fn rally(drivers: Vec<(&str, Vec<Option<StageResult>>)>, n: usize) -> RallyResults {
    RallyResults {
        stages: (1..=n).map(stage).collect(),
        driver_results: drivers
            .into_iter()
            .map(|(name, stages)| DriverResult { name: name.to_string(), stages })
            .collect(),
        stage_results: (0..n).map(|_| Vec::new()).collect(),
    }
}

#[test]
fn full_finishers_sorted_by_total_ties_in_input_order() {
    let r = rally(
        vec![
            ("c", vec![res(100), res(200)]),
            ("a", vec![res(150), res(150)]),
            ("b", vec![res(50), res(100)]),
        ],
        2,
    );
    let (full, partial) = split_times(&r);
    let names: Vec<&str> = full.iter().map(|f| f.user_name.as_str()).collect();
    assert_eq!(names, vec!["b", "c", "a"]);
    assert_eq!(full[0].total_time, 150);
    assert_eq!(full[1].total_time, 300);
    assert_eq!(full[2].total_time, 300);
    assert_eq!(full[0].stage_times, vec![50, 100]);
    assert_eq!(full[0].world_rank, vec![Some(100), Some(100)]);
    assert!(partial.is_empty());
}

#[test]
fn partial_finishers_by_count_then_total() {
    let r = rally(
        vec![
            ("one_fast", vec![res(10), None, None]),
            ("two_slow", vec![res(500), res(500), None]),
            ("two_fast", vec![None, res(100), res(100)]),
            ("nothing", vec![None, None, None]),
        ],
        3,
    );
    let (full, partial) = split_times(&r);
    assert!(full.is_empty());
    let names: Vec<&str> = partial.iter().map(|p| p.user_name.as_str()).collect();
    assert_eq!(names, vec!["two_fast", "two_slow", "one_fast"]);
    assert_eq!(partial[0].finished_stages, 2);
    assert_eq!(partial[0].total_time, 200);
    assert_eq!(partial[0].stage_times, vec![None, Some(100), Some(100)]);
    assert_eq!(partial[2].cars, vec![Some(3), None, None]);
}

#[test]
fn classifying_twice_gives_the_same_order() {
    let r = rally(
        vec![
            ("x", vec![res(100), res(100)]),
            ("y", vec![res(120), res(80)]),
            ("z", vec![res(90), None]),
            ("w", vec![None, res(90)]),
        ],
        2,
    );
    let (full_a, part_a) = split_times(&r);
    let (full_b, part_b) = split_times(&r);
    let n1: Vec<&str> = full_a.iter().map(|f| f.user_name.as_str()).collect();
    let n2: Vec<&str> = full_b.iter().map(|f| f.user_name.as_str()).collect();
    assert_eq!(n1, n2);
    assert_eq!(n1, vec!["x", "y"]);
    let m1: Vec<&str> = part_a.iter().map(|p| p.user_name.as_str()).collect();
    let m2: Vec<&str> = part_b.iter().map(|p| p.user_name.as_str()).collect();
    assert_eq!(m1, m2);
    assert_eq!(m1, vec!["z", "w"]);
}

#[test]
fn fastest_times_over_full_and_partial() {
    let r = rally(
        vec![
            ("a", vec![res(100), res(200)]),
            ("b", vec![res(90), None]),
            ("c", vec![res(120), res(170)]),
        ],
        2,
    );
    let (full, _) = split_times(&r);
    let (total, per_stage) = fastest_times(&full, &r);
    assert_eq!(total, Some(290));
    assert_eq!(per_stage, vec![Some(90), Some(170)]);
}

#[test]
fn nobody_drove_means_no_fastest() {
    let r = rally(vec![("a", vec![None, None]), ("b", vec![None, None])], 2);
    let (full, partial) = split_times(&r);
    assert!(full.is_empty());
    assert!(partial.is_empty());
    let (total, per_stage) = fastest_times(&full, &r);
    assert_eq!(total, None);
    assert_eq!(per_stage, vec![None, None]);
}

#[test]
fn drivers_without_outcomes_are_reported_apart() {
    let r = rally(
        vec![("a", vec![None, None]), ("b", vec![res(10), None]), ("c", vec![None, None])],
        2,
    );
    let idle = art_of_rally_leaderboard_utils::classify::idle_drivers(&r);
    assert_eq!(idle, vec!["a".to_string(), "c".to_string()]);
    let none = rally(vec![("a", vec![])], 0);
    assert!(art_of_rally_leaderboard_utils::classify::idle_drivers(&none).is_empty());
    let (full, _) = split_times(&none);
    assert_eq!(full.len(), 1);
    assert_eq!(full[0].total_time, 0);
}
