use art_of_rally_leaderboard_utils::classify::all_totals_fit;
use art_of_rally_leaderboard_utils::diff::Row;
use art_of_rally_leaderboard_utils::model::{CarClass, Conditions, GamePlatform, Heading, Location, Stage, StageWithLeaderboard};
use art_of_rally_leaderboard_utils::notify::{notification_text, stage_label};
use art_of_rally_leaderboard_utils::snapshot::{RallyChanges, Snapshot};
use art_of_rally_leaderboard_utils::{DriverResult, Rally, RallyResults, StageResult};

fn board(n: usize) -> StageWithLeaderboard {
    (Stage { area: Location::Kenya, stage_number: n, direction: Heading::Forward }, CarClass::GroupB, Conditions::Dry)
}

fn snapshot_with(stages: Vec<StageWithLeaderboard>, drivers: Vec<DriverResult>) -> Snapshot {
    let n = stages.len();
    Snapshot {
        rallys: vec![Rally { title: "kenya".to_string(), stages: stages.clone() }],
        results: vec![RallyResults { stages, driver_results: drivers, stage_results: (0..n).map(|_| Vec::new()).collect() }],
        platform: GamePlatform::Epic,
        user_ids: vec![],
        user_names: vec![],
    }
}

#[test]
fn message_lines() {
    let r = Row::NewEntrant { rank: 3, name: "ann".to_string(), time: 61_234 };
    assert_eq!(r.message(2, 5).unwrap(), "  > 3.  ann    1:01.234");
    let r = Row::ImprovedTimeRankUp { rank: 1, name: "bo".to_string(), time: 60_000, prev: 61_500, passed: vec![] };
    assert_eq!(r.message(0, 2).unwrap(), "^ 1.  bo  1:00.000  -0:01.500");
    let r = Row::RankDown { rank: 4, name: "cy".to_string(), time: 70_000 };
    assert_eq!(r.message(4, 3).unwrap(), "    v 4.  cy   1:10.000");
    let r = Row::Unchanged { active: true, rank: 2, name: "di".to_string(), time: 5 };
    assert_eq!(r.message(0, 2).unwrap(), "  2.  di  0:00.005");
    let r = Row::Unchanged { active: false, rank: 2, name: "di".to_string(), time: 5 };
    assert!(r.message(0, 2).is_none());
}

#[test]
fn stage_labels() {
    assert_eq!(stage_label(&board(3)), "kenya 3 forward dry");
    let wet = (Stage { area: Location::Sardinia, stage_number: 12, direction: Heading::Backward }, CarClass::GroupS, Conditions::Wet);
    assert_eq!(stage_label(&wet), "sardinia 12 backward wet");
}

#[test]
fn notification_of_changed_rally() {
    let snap = snapshot_with(vec![board(1), board(2)], vec![]);
    let changes = vec![RallyChanges {
        title: "kenya".to_string(),
        overall: vec![Row::Unchanged { active: false, rank: 1, name: "ann".to_string(), time: 1000 }],
        stages: vec![
            vec![
                Row::Unchanged { active: true, rank: 1, name: "ann".to_string(), time: 400 },
                Row::NewEntrant { rank: 2, name: "bo".to_string(), time: 500 },
            ],
            vec![Row::Unchanged { active: false, rank: 1, name: "ann".to_string(), time: 600 }],
        ],
    }];
    let text = notification_text(&changes, &snap).unwrap();
    assert_eq!(
        text,
        "```\nkenya\n  kenya 1 forward dry\n      1.  ann  0:00.400\n    > 2.  bo   0:00.500\n```"
    );
}

#[test]
fn quiet_report_sends_nothing() {
    let snap = snapshot_with(vec![board(1)], vec![]);
    let changes = vec![RallyChanges {
        title: "kenya".to_string(),
        overall: vec![],
        stages: vec![vec![Row::Unchanged { active: false, rank: 1, name: "ann".to_string(), time: 400 }]],
    }];
    assert!(notification_text(&changes, &snap).is_none());
}

#[test]
fn well_formed_snapshots() {
    let ok = snapshot_with(
        vec![board(1)],
        vec![DriverResult { name: "a".to_string(), stages: vec![Some(StageResult { car: 1, time_ms: 5, local_rank: 1, world_rank: None })] }],
    );
    assert!(ok.is_well_formed());
    let short = snapshot_with(vec![board(1)], vec![DriverResult { name: "a".to_string(), stages: vec![] }]);
    assert!(!short.is_well_formed());
    let big = vec![DriverResult {
        name: "a".to_string(),
        stages: vec![
            Some(StageResult { car: 1, time_ms: usize::MAX, local_rank: 1, world_rank: None }),
            Some(StageResult { car: 1, time_ms: 1, local_rank: 1, world_rank: None }),
        ],
    }];
    assert!(!all_totals_fit(&big));
    let snap = snapshot_with(vec![board(1), board(2)], big);
    assert!(!snap.is_well_formed());
}
