use art_of_rally_leaderboard_utils::get_rally_results;
use art_of_rally_leaderboard_utils::model::{CarClass, Conditions, Heading, Location, Stage, StageResult, StageWithLeaderboard};
use art_of_rally_leaderboard_utils::resolve::{resolve_stage, LeaderboardRow};

fn row(local_rank: usize, time_ms: usize, car: usize) -> LeaderboardRow {
    LeaderboardRow { local_rank, time_ms, car }
}

fn stage(n: usize) -> StageWithLeaderboard {
    (
        Stage { area: Location::Kenya, stage_number: n, direction: Heading::Forward },
        CarClass::GroupB,
        Conditions::Dry,
    )
}

#[test]
fn world_ranks_pair_with_local_ranks() {
    let rows = vec![row(1, 100, 7), row(2, 150, 8), row(3, 200, 9)];
    let ranks = vec![Some(3), Some(1), Some(2)];
    let r = resolve_stage(&rows, &ranks);
    assert_eq!(r.len(), 3);
    // driver 1 has world rank 1, driver 2 world rank 2, driver 0 world rank 3
    assert_eq!(r[0], (1, StageResult { car: 7, time_ms: 100, local_rank: 1, world_rank: Some(1) }));
    assert_eq!(r[1], (2, StageResult { car: 8, time_ms: 150, local_rank: 2, world_rank: Some(2) }));
    assert_eq!(r[2], (0, StageResult { car: 9, time_ms: 200, local_rank: 3, world_rank: Some(3) }));
}

#[test]
fn rows_are_sorted_by_local_rank_first() {
    let rows = vec![row(3, 200, 9), row(1, 100, 7), row(2, 150, 8)];
    let ranks = vec![Some(10), Some(20), Some(30)];
    let r = resolve_stage(&rows, &ranks);
    let locals: Vec<usize> = r.iter().map(|(_, s)| s.local_rank).collect();
    let drivers: Vec<usize> = r.iter().map(|(d, _)| *d).collect();
    assert_eq!(locals, vec![1, 2, 3]);
    assert_eq!(drivers, vec![0, 1, 2]);
    assert_eq!(r[0].1.time_ms, 100);
}

#[test]
fn ranked_response_keeps_its_order() {
    let rows = vec![row(1, 90, 1), row(2, 95, 2), row(3, 99, 3), row(4, 120, 4)];
    let ranks = vec![Some(5), Some(6), Some(7), Some(8)];
    let r = resolve_stage(&rows, &ranks);
    for (i, (_, s)) in r.iter().enumerate() {
        assert_eq!(s.local_rank, i + 1);
        assert_eq!(s.time_ms, rows[i].time_ms);
    }
}

#[test]
fn failed_rank_query_takes_no_row() {
    let rows = vec![row(1, 100, 1), row(2, 150, 2)];
    let ranks = vec![None, Some(4), Some(2)];
    let r = resolve_stage(&rows, &ranks);
    assert_eq!(r.len(), 2);
    assert_eq!(r[0].0, 2);
    assert_eq!(r[1].0, 1);
    assert!(r.iter().all(|(d, _)| *d != 0));
}

#[test]
fn pairing_stops_at_the_shorter_list() {
    let rows = vec![row(1, 100, 1), row(2, 150, 2), row(3, 160, 3)];
    let ranks = vec![Some(4), Some(2)];
    let r = resolve_stage(&rows, &ranks);
    assert_eq!(r.len(), 2);
    let r = resolve_stage(&vec![row(1, 100, 1)], &ranks);
    assert_eq!(r.len(), 1);
    assert_eq!(r[0].0, 1);
}

#[test]
fn equal_world_ranks_keep_driver_order() {
    let rows = vec![row(1, 100, 1), row(2, 150, 2)];
    let ranks = vec![Some(5), Some(5)];
    let r = resolve_stage(&rows, &ranks);
    assert_eq!(r[0].0, 0);
    assert_eq!(r[1].0, 1);
}

#[test]
fn rally_results_fold_stages_per_driver() {
    let stages = vec![stage(1), stage(2)];
    let boards = vec![Some(vec![row(1, 100, 7), row(2, 120, 8)]), None];
    // driver by driver: [driver 0 stage 0, driver 0 stage 1, driver 1 stage 0, driver 1 stage 1]
    let world = vec![Some(40), Some(3), Some(12), None];
    let names = vec!["anna".to_string(), "bert".to_string()];
    let r = get_rally_results(stages.clone(), &boards, &world, &names);
    assert_eq!(r.stages, stages);
    assert_eq!(r.driver_results.len(), 2);
    assert_eq!(r.driver_results[0].name, "anna");
    assert_eq!(r.driver_results[1].name, "bert");
    assert_eq!(
        r.driver_results[1].stages,
        vec![Some(StageResult { car: 7, time_ms: 100, local_rank: 1, world_rank: Some(12) }), None]
    );
    assert_eq!(
        r.driver_results[0].stages,
        vec![Some(StageResult { car: 8, time_ms: 120, local_rank: 2, world_rank: Some(40) }), None]
    );
    assert_eq!(r.stage_results.len(), 2);
    assert_eq!(r.stage_results[0].len(), 2);
    assert_eq!(r.stage_results[0][0].0, "bert");
    assert_eq!(r.stage_results[0][1].0, "anna");
    assert!(r.stage_results[1].is_empty());
}

#[test]
fn empty_rally_has_no_results() {
    let names = vec!["anna".to_string()];
    let r = get_rally_results(vec![], &vec![], &vec![], &names);
    assert_eq!(r.driver_results.len(), 1);
    assert!(r.driver_results[0].stages.is_empty());
    assert!(r.stage_results.is_empty());
}
