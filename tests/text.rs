use art_of_rally_leaderboard_utils::model::{Conditions, Location};
use art_of_rally_leaderboard_utils::query::{cache_key, cache_path, friends_urls, rank_urls};
use art_of_rally_leaderboard_utils::model::{CarClass, GamePlatform, Heading, Stage};
use art_of_rally_leaderboard_utils::text::{hex_string, url_safe};
use art_of_rally_leaderboard_utils::{format_delta, format_time, get_default_rallys};

#[test]
fn format_time_short_and_long() {
    assert_eq!(format_time(0, false), "0:00.000");
    assert_eq!(format_time(83_456, false), "1:23.456");
    assert_eq!(format_time(83_456, true), "01:23.456");
    assert_eq!(format_time(725_007, true), "12:05.007");
    assert_eq!(format_time(6_000_000, false), "100:00.000");
}

#[test]
fn format_delta_blank_when_level() {
    assert_eq!(format_delta(5000, 5000, false), "         ");
    assert_eq!(format_delta(65_500, 5000, false), "+1:00.500");
    assert_eq!(format_delta(65_500, 5000, true), "+01:00.500");
}

#[test]
fn hex_and_cache_keys() {
    assert_eq!(hex_string(&vec![0x00, 0x0f, 0xa0, 0xff]), "000fa0ff");
    assert_eq!(cache_path(&vec![0xde, 0xad]), "cache/dead");
    assert_eq!(cache_key(""), "cache/d41d8cd98f00b204e9800998ecf8427e");
    assert_eq!(cache_key("abc"), "cache/900150983cd24fb0d6963f7d28e17f72");
}

#[test]
fn url_safe_lowercases_and_dashes() {
    assert_eq!(url_safe("Kenya Stage 1 Dry"), "kenya-stage-1-dry");
    assert_eq!(url_safe(""), "");
}

#[test]
fn default_rallys() {
    let r = get_default_rallys();
    assert_eq!(r.len(), 2);
    assert_eq!(r[0].title, "kenya - group b");
    assert_eq!(r[1].title, "norway - group 4");
    assert_eq!(r[0].stages.len(), 6);
    assert_eq!(r[1].stages[5].0.stage_number, 6);
    assert_eq!(r[1].stages[5].0.area, Location::Norway);
    assert_eq!(r[0].stages[0].1, CarClass::GroupB);
    assert_eq!(r[0].stages[0].2, Conditions::Dry);
}

#[test]
fn leaderboard_urls() {
    let stages = vec![(
        Stage { area: Location::Kenya, stage_number: 1, direction: Heading::Forward },
        CarClass::GroupB,
        Conditions::Dry,
    )];
    let f = friends_urls(&stages, GamePlatform::Steam, &vec![11, 22, 33]);
    assert_eq!(
        f,
        vec!["https://www.funselektorfun.com/artofrally/leaderboard/Kenya_Stage_1_Forward_Dry_GroupB/6/2/11/[22,33]".to_string()]
    );
    let r = rank_urls(&stages, GamePlatform::Steam, &vec![11, 22]);
    assert_eq!(r.len(), 2);
    assert_eq!(
        r[1],
        "https://www.funselektorfun.com/artofrally/leaderboard/Kenya_Stage_1_Forward_Dry_GroupB/4/2/22/[]"
    );
}
