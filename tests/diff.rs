use art_of_rally_leaderboard_utils::diff::{diff_scope, Row, Standing};

fn st(name: &str, time: usize, rank: usize) -> Standing {
    Standing { name: name.to_string(), time, rank }
}

#[test]
fn faster_and_ranked_up_lists_the_passed() {
    let prev = vec![st("a", 100000, 1), st("b", 115000, 2), st("d", 120000, 3)];
    let cur = vec![st("a", 100000, 1), st("b", 115000, 3), st("d", 110000, 2)];
    let rows = diff_scope(&cur, &prev);
    assert_eq!(rows.len(), 3);
    match &rows[1] {
        Row::ImprovedTimeRankUp { rank, name, time, prev, passed } => {
            assert_eq!(*rank, 2);
            assert_eq!(name, "d");
            assert_eq!(*time, 110000);
            assert_eq!(*prev, 120000);
            // the others now ranked in [2, 3): nobody else
            assert!(passed.is_empty());
        }
        other => panic!("unexpected {:?}", other),
    }
    assert!(matches!(&rows[2], Row::RankDown { rank: 3, time: 115000, .. }));
    assert!(matches!(&rows[0], Row::Unchanged { active: true, rank: 1, .. }));
}

#[test]
fn passed_holds_exactly_the_overtaken() {
    let prev = vec![st("a", 100, 1), st("b", 110, 2), st("c", 120, 3), st("d", 130, 4)];
    let cur = vec![st("a", 100, 2), st("b", 110, 3), st("c", 120, 4), st("d", 90, 1)];
    let rows = diff_scope(&cur, &prev);
    assert_eq!(rows[0].name(), "d");
    match &rows[0] {
        Row::ImprovedTimeRankUp { passed, prev, .. } => {
            assert_eq!(*prev, 130);
            // now ranked in [1, 4): a at 2 and b at 3; c, at 4, was not overtaken
            assert_eq!(passed, &vec!["a".to_string(), "b".to_string()]);
        }
        other => panic!("unexpected {:?}", other),
    }
}

#[test]
fn no_previous_entry_is_a_new_entrant() {
    let prev = vec![st("a", 100, 1)];
    let cur = vec![st("a", 100, 1), st("e", 150, 2)];
    let rows = diff_scope(&cur, &prev);
    assert!(matches!(&rows[1], Row::NewEntrant { rank: 2, time: 150, .. }));
    assert_eq!(rows[1].name(), "e");
    assert!(matches!(&rows[0], Row::Unchanged { active: true, .. }));
}

#[test]
fn only_unchanged_rows_just_above_a_change_are_visible() {
    let prev = vec![st("g", 100, 1), st("h", 110, 2), st("f", 120, 3), st("x", 140, 4)];
    let cur = vec![st("x", 130, 4), st("f", 120, 3), st("h", 110, 2), st("g", 100, 1)];
    let rows = diff_scope(&cur, &prev);
    let ranks: Vec<usize> = rows.iter().map(|r| r.rank()).collect();
    assert_eq!(ranks, vec![1, 2, 3, 4]);
    // f sits just above the changed x
    assert!(matches!(&rows[2], Row::Unchanged { active: true, .. }));
    assert!(rows[2].is_visible());
    // g and h have only unchanged neighbours
    assert!(matches!(&rows[0], Row::Unchanged { active: false, .. }));
    assert!(matches!(&rows[1], Row::Unchanged { active: false, .. }));
    assert!(!rows[0].is_visible());
    assert!(!rows[1].is_visible());
    assert!(matches!(&rows[3], Row::ImprovedTimeRankSame { prev: 140, .. }));
}

#[test]
fn all_unchanged_scope_shows_nothing() {
    let prev = vec![st("a", 100, 1), st("b", 110, 2)];
    let cur = vec![st("a", 100, 1), st("b", 110, 2)];
    let rows = diff_scope(&cur, &prev);
    assert!(rows.iter().all(|r| r.is_unchanged() && !r.is_visible()));
}

#[test]
fn faster_but_ranked_down() {
    let prev = vec![st("a", 200, 1), st("b", 150, 2)];
    let cur = vec![st("a", 190, 2), st("b", 100, 1)];
    let rows = diff_scope(&cur, &prev);
    assert!(matches!(&rows[0], Row::ImprovedTimeRankUp { .. }));
    assert!(matches!(&rows[1], Row::ImprovedTimeRankDown { rank: 2, time: 190, prev: 200, .. }));
}

#[test]
fn empty_scope_has_no_rows() {
    let rows = diff_scope(&vec![], &vec![st("a", 1, 1)]);
    assert!(rows.is_empty());
}
