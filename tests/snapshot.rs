use art_of_rally_leaderboard_utils::diff::Row;
use art_of_rally_leaderboard_utils::model::{CarClass, Conditions, GamePlatform, Heading, Location, Stage, StageWithLeaderboard};
use art_of_rally_leaderboard_utils::snapshot::{diff_snapshots, Snapshot};
use art_of_rally_leaderboard_utils::{DriverResult, Rally, RallyResults, StageResult};

fn stage(n: usize, weather: Conditions) -> StageWithLeaderboard {
    (Stage { area: Location::Japan, stage_number: n, direction: Heading::Backward }, CarClass::GroupA, weather)
}

fn res(time_ms: usize, local_rank: usize) -> Option<StageResult> {
    Some(StageResult { car: 1, time_ms, local_rank, world_rank: None })
}

fn snapshot(title: &str, stages: Vec<StageWithLeaderboard>, drivers: Vec<(&str, Vec<Option<StageResult>>)>) -> Snapshot {
    let n = stages.len();
    Snapshot {
        rallys: vec![Rally { title: title.to_string(), stages: stages.clone() }],
        results: vec![RallyResults {
            stages,
            driver_results: drivers
                .into_iter()
                .map(|(name, stages)| DriverResult { name: name.to_string(), stages })
                .collect(),
            stage_results: (0..n).map(|_| Vec::new()).collect(),
        }],
        platform: GamePlatform::Steam,
        user_ids: vec![1, 2],
        user_names: vec!["a".to_string(), "b".to_string()],
    }
}

#[test]
fn without_previous_snapshot_everyone_is_new() {
    let cur = snapshot("r", vec![stage(1, Conditions::Dry)], vec![("a", vec![res(100, 1)]), ("b", vec![None])]);
    let changes = diff_snapshots(&cur, None);
    assert_eq!(changes.len(), 1);
    assert_eq!(changes[0].title, "r");
    assert_eq!(changes[0].overall.len(), 1);
    assert!(matches!(&changes[0].overall[0], Row::NewEntrant { rank: 1, time: 100, .. }));
    assert_eq!(changes[0].stages.len(), 1);
    assert_eq!(changes[0].stages[0].len(), 1);
    assert!(matches!(&changes[0].stages[0][0], Row::NewEntrant { rank: 1, time: 100, .. }));
}

#[test]
fn previous_rally_is_matched_by_title_and_stage() {
    let prev = snapshot(
        "r",
        vec![stage(1, Conditions::Dry), stage(2, Conditions::Dry)],
        vec![("a", vec![res(100, 1), res(300, 2)]), ("b", vec![res(120, 2), res(200, 1)])],
    );
    let cur = snapshot(
        "r",
        vec![stage(1, Conditions::Dry), stage(2, Conditions::Wet)],
        vec![("a", vec![res(90, 1), res(300, 2)]), ("b", vec![res(120, 2), res(200, 1)])],
    );
    let changes = diff_snapshots(&cur, Some(&prev));
    let s0 = &changes[0].stages[0];
    assert!(matches!(&s0[0], Row::ImprovedTimeRankSame { rank: 1, time: 90, prev: 100, .. }));
    assert!(matches!(&s0[1], Row::Unchanged { active: false, .. }));
    // stage two is another leaderboard now: no previous standing
    let s1 = &changes[0].stages[1];
    assert!(s1.iter().all(|r| matches!(r, Row::NewEntrant { .. })));
    // overall: a 390 (was 400), b 320 (unchanged)
    let o = &changes[0].overall;
    assert_eq!(o.len(), 2);
    assert!(matches!(&o[0], Row::Unchanged { active: true, rank: 1, time: 320, .. }));
    assert!(matches!(&o[1], Row::ImprovedTimeRankSame { rank: 2, time: 390, prev: 400, .. }));
}

#[test]
fn another_title_is_not_a_previous_rally() {
    let prev = snapshot("old", vec![stage(1, Conditions::Dry)], vec![("a", vec![res(100, 1)])]);
    let cur = snapshot("new", vec![stage(1, Conditions::Dry)], vec![("a", vec![res(100, 1)])]);
    let changes = diff_snapshots(&cur, Some(&prev));
    assert!(matches!(&changes[0].stages[0][0], Row::NewEntrant { .. }));
    assert!(matches!(&changes[0].overall[0], Row::NewEntrant { .. }));
}
