//! The requests a fetch cycle makes, and the cache key of each.
use vstd::prelude::*;
use art_of_rally_leaderboard_api as api;
use crate::model::{Location, Heading, CarClass, GamePlatform, StageWithLeaderboard, Conditions};
use crate::text::{hex_of, hex_string};

verus! {

#[verifier::external_type_specification]
#[verifier::external_body]
pub struct ExApiArea(api::Area);

#[verifier::external_type_specification]
#[verifier::external_body]
pub struct ExApiDirection(api::Direction);

#[verifier::external_type_specification]
#[verifier::external_body]
pub struct ExApiWeather(api::Weather);

#[verifier::external_type_specification]
#[verifier::external_body]
pub struct ExApiGroup(api::Group);

#[verifier::external_type_specification]
#[verifier::external_body]
pub struct ExApiFilter(api::Filter);

#[verifier::external_type_specification]
#[verifier::external_body]
pub struct ExApiPlatform(api::Platform);

/// The two leaderboard queries a cycle makes.
#[derive(Clone, Copy, Debug, PartialEq, Eq, Structural)]
pub enum Query {
    /// The rows of the configured drivers, ranked among themselves.
    Friends,
    /// One driver's rank among everybody.
    PlayerRank,
}

/// Names the area for the leaderboard API; promises nothing.
#[verifier::external_body]
fn api_area(a: Location) -> api::Area {
    match a {
        Location::Finland => api::Area::Finland,
        Location::Sardinia => api::Area::Sardinia,
        Location::Japan => api::Area::Japan,
        Location::Norway => api::Area::Norway,
        Location::Germany => api::Area::Germany,
        Location::Kenya => api::Area::Kenya,
    }
}

/// Names the direction for the leaderboard API; promises nothing.
#[verifier::external_body]
fn api_direction(d: Heading) -> api::Direction {
    match d {
        Heading::Forward => api::Direction::Forward,
        Heading::Backward => api::Direction::Backward,
    }
}

/// Names the weather for the leaderboard API; promises nothing.
#[verifier::external_body]
fn api_weather(w: Conditions) -> api::Weather {
    match w {
        Conditions::Dry => api::Weather::Dry,
        Conditions::Wet => api::Weather::Wet,
    }
}

/// Names the car group for the leaderboard API; promises nothing.
#[verifier::external_body]
fn api_group(g: CarClass) -> api::Group {
    match g {
        CarClass::Sixties => api::Group::Sixties,
        CarClass::Seventies => api::Group::Seventies,
        CarClass::Eighties => api::Group::Eighties,
        CarClass::GroupB => api::Group::GroupB,
        CarClass::GroupS => api::Group::GroupS,
        CarClass::GroupA => api::Group::GroupA,
        CarClass::BonusVans => api::Group::BonusVans,
        CarClass::BonusPiaggio => api::Group::BonusPiaggio,
        CarClass::BonusDakar => api::Group::BonusDakar,
        CarClass::BonusLogging => api::Group::BonusLogging,
    }
}

/// Names the query for the leaderboard API; promises nothing.
#[verifier::external_body]
fn api_filter(q: Query) -> api::Filter {
    match q {
        Query::Friends => api::Filter::Friends,
        Query::PlayerRank => api::Filter::PlayerRank,
    }
}

/// Names the platform for the leaderboard API; promises nothing.
#[verifier::external_body]
fn api_platform(p: GamePlatform) -> api::Platform {
    match p {
        GamePlatform::Epic => api::Platform::Epic,
        GamePlatform::Gog => api::Platform::Gog,
        GamePlatform::Steam => api::Platform::Steam,
        GamePlatform::Xbox => api::Platform::Xbox,
        GamePlatform::Playstation => api::Platform::Playstation,
        GamePlatform::Nintendo => api::Platform::Nintendo,
        GamePlatform::Unlisted => api::Platform::None,
    }
}

/// The URL of a leaderboard query, as the leaderboard API writes it.
pub uninterp spec fn leaderboard_url_of(
    stage: StageWithLeaderboard,
    platform: GamePlatform,
    query: Query,
    user: u64,
    friends: Seq<u64>,
) -> Seq<char>;

/// Relies on `Leaderboard::as_url` of art-of-rally-leaderboard-api: the URL depends on
/// the leaderboard, the query, the platform, the user and the friends alone.
#[verifier::external_body]
fn leaderboard_url(stage: &StageWithLeaderboard, platform: GamePlatform, query: Query, user: u64, friends: &[u64]) -> (r: String)
    ensures
        r@ == leaderboard_url_of(*stage, platform, query, user, friends@),
{
    let board = api::Leaderboard {
        area: api_area(stage.0.area),
        stage: stage.0.stage_number,
        direction: api_direction(stage.0.direction),
        weather: api_weather(stage.2),
        group: api_group(stage.1),
        filter: api_filter(query),
        platform: api_platform(platform),
    };
    board.as_url(user, friends)
}

/// For each stage, its friends leaderboard as seen by the first driver, with the others
/// as friends.
pub fn friends_urls(stages: &Vec<StageWithLeaderboard>, platform: GamePlatform, user_ids: &Vec<u64>) -> (r: Vec<String>)
    requires
        user_ids@.len() > 0,
    ensures
        r@.len() == stages@.len(),
        forall|s: int|
            0 <= s < stages@.len() ==> (#[trigger] r@[s])@ == leaderboard_url_of(
                stages@[s],
                platform,
                Query::Friends,
                user_ids@[0],
                user_ids@.skip(1),
            ),
{
    let mut friends: Vec<u64> = Vec::new();
    let mut i: usize = 1;
    while i < user_ids.len()
        invariant
            1 <= i <= user_ids@.len(),
            friends@ == user_ids@.subrange(1, i as int),
        decreases user_ids@.len() - i,
    {
        friends.push(user_ids[i]);
        assert(friends@ =~= user_ids@.subrange(1, i + 1));
        i = i + 1;
    }
    assert(friends@ =~= user_ids@.skip(1));
    let mut out: Vec<String> = Vec::new();
    let mut s: usize = 0;
    while s < stages.len()
        invariant
            user_ids@.len() > 0,
            friends@ == user_ids@.skip(1),
            s <= stages@.len(),
            out@.len() == s,
            forall|k: int|
                0 <= k < s ==> (#[trigger] out@[k])@ == leaderboard_url_of(
                    stages@[k],
                    platform,
                    Query::Friends,
                    user_ids@[0],
                    user_ids@.skip(1),
                ),
        decreases stages@.len() - s,
    {
        out.push(leaderboard_url(&stages[s], platform, Query::Friends, user_ids[0], friends.as_slice()));
        s = s + 1;
    }
    out
}

proof fn lemma_slot_before(v: int, t: int, u: int, n: int)
    requires
        0 <= v < u,
        0 <= t < n,
    ensures
        0 <= v * n + t < u * n,
{
    assert(0 <= v * n + t < u * n) by (nonlinear_arith)
        requires
            0 <= v < u,
            0 <= t < n,
    ;
}

/// Every driver's own rank query on every stage, driver by driver: the query of driver
/// `u` on stage `s` is at `u * stages + s`.
pub fn rank_urls(stages: &Vec<StageWithLeaderboard>, platform: GamePlatform, user_ids: &Vec<u64>) -> (r: Vec<String>)
    requires
        user_ids@.len() * stages@.len() <= usize::MAX,
    ensures
        r@.len() == user_ids@.len() * stages@.len(),
        forall|u: int, s: int|
            0 <= u < user_ids@.len() && 0 <= s < stages@.len() ==> (#[trigger] r@[u * stages@.len() + s])@
                == leaderboard_url_of(stages@[s], platform, Query::PlayerRank, user_ids@[u], Seq::empty()),
{
    let n_stages = stages.len();
    let none: Vec<u64> = Vec::new();
    let mut out: Vec<String> = Vec::new();
    let mut u: usize = 0;
    while u < user_ids.len()
        invariant
            n_stages == stages@.len(),
            none@ == Seq::<u64>::empty(),
            user_ids@.len() * n_stages <= usize::MAX,
            u <= user_ids@.len(),
            out@.len() == u * n_stages,
            forall|v: int, s: int|
                0 <= v < u && 0 <= s < n_stages ==> (#[trigger] out@[v * n_stages + s])@ == leaderboard_url_of(
                    stages@[s],
                    platform,
                    Query::PlayerRank,
                    user_ids@[v],
                    Seq::empty(),
                ),
        decreases user_ids@.len() - u,
    {
        let mut s: usize = 0;
        while s < n_stages
            invariant
                n_stages == stages@.len(),
                none@ == Seq::<u64>::empty(),
                u < user_ids@.len(),
                s <= n_stages,
                out@.len() == u * n_stages + s,
                forall|v: int, t: int|
                    0 <= v < u && 0 <= t < n_stages ==> (#[trigger] out@[v * n_stages + t])@ == leaderboard_url_of(
                        stages@[t],
                        platform,
                        Query::PlayerRank,
                        user_ids@[v],
                        Seq::empty(),
                    ),
                forall|t: int|
                    0 <= t < s ==> (#[trigger] out@[u * n_stages + t])@ == leaderboard_url_of(
                        stages@[t],
                        platform,
                        Query::PlayerRank,
                        user_ids@[u as int],
                        Seq::empty(),
                    ),
            decreases n_stages - s,
        {
            let ghost before = out@;
            out.push(leaderboard_url(&stages[s], platform, Query::PlayerRank, user_ids[u], none.as_slice()));
            assert forall|v: int, t: int| 0 <= v < u && 0 <= t < n_stages implies #[trigger] out@[v * n_stages + t] == before[v * n_stages + t] by {
                lemma_slot_before(v, t, u as int, n_stages as int);
            }
            s = s + 1;
        }
        assert forall|v: int, t: int|
            0 <= v < u + 1 && 0 <= t < n_stages implies (#[trigger] out@[v * n_stages + t])@ == leaderboard_url_of(
                stages@[t],
                platform,
                Query::PlayerRank,
                user_ids@[v],
                Seq::empty(),
            ) by {
            if v == u {
                assert(out@[u * n_stages + t] == out@[v * n_stages + t]);
            }
        }
        assert((u + 1) * n_stages == u * n_stages + n_stages) by (nonlinear_arith);
        assert((u + 1) * n_stages <= user_ids@.len() * n_stages) by (nonlinear_arith)
            requires
                u + 1 <= user_ids@.len(),
        ;
        u = u + 1;
    }
    out
}

/// The 16-byte MD5 digest of a text.
pub uninterp spec fn md5_of(text: Seq<char>) -> Seq<u8>;

/// Relies on `md5::compute`: the digest of the text's UTF-8 bytes, 16 bytes long.
#[verifier::external_body]
fn md5_digest(text: &str) -> (r: Vec<u8>)
    ensures
        r@ == md5_of(text@),
        r@.len() == 16,
{
    md5::compute(text.as_bytes()).0.to_vec()
}

/// The cache file of a payload whose URL has digest `digest`.
pub fn cache_path(digest: &Vec<u8>) -> (r: String)
    ensures
        r@ == "cache/"@ + hex_of(digest@),
{
    let mut s = String::from_str("cache/");
    let hex = hex_string(digest);
    s.append(hex.as_str());
    s
}

/// The cache file of the payload fetched from `url`: its MD5 digest in hex, under `cache/`.
pub fn cache_key(url: &str) -> (r: String)
    ensures
        r@ == "cache/"@ + hex_of(md5_of(url@)),
{
    let digest = md5_digest(url);
    cache_path(&digest)
}

} // verus!
