//! Stages, rallies and the per-driver outcomes collected for them.
use vstd::prelude::*;

verus! {

#[derive(Clone, Copy, Debug, PartialEq, Eq, Structural)]
pub enum Location {
    Finland,
    Sardinia,
    Japan,
    Norway,
    Germany,
    Kenya,
}

#[derive(Clone, Copy, Debug, PartialEq, Eq, Structural)]
pub enum Heading {
    Forward,
    Backward,
}

#[derive(Clone, Copy, Debug, PartialEq, Eq, Structural)]
pub enum Conditions {
    Dry,
    Wet,
}

#[derive(Clone, Copy, Debug, PartialEq, Eq, Structural)]
pub enum CarClass {
    Sixties,
    Seventies,
    Eighties,
    GroupB,
    GroupS,
    GroupA,
    BonusVans,
    BonusPiaggio,
    BonusDakar,
    BonusLogging,
}

/// The game platform whose leaderboards are queried.
#[derive(Clone, Copy, Debug, PartialEq, Eq, Structural)]
pub enum GamePlatform {
    Epic,
    Gog,
    Steam,
    Xbox,
    Playstation,
    Nintendo,
    Unlisted,
}

#[derive(Clone, Copy, Debug, PartialEq, Eq, Structural)]
pub struct Stage {
    pub area: Location,
    pub stage_number: usize,
    pub direction: Heading,
}

/// A fully qualified leaderboard: the stage, the car group and the weather.
pub type StageWithLeaderboard = (Stage, CarClass, Conditions);

/// Whether two leaderboards are the same one.
pub fn same_leaderboard(a: &StageWithLeaderboard, b: &StageWithLeaderboard) -> (r: bool)
    ensures
        r == (*a == *b),
{
    a.0 == b.0 && a.1 == b.1 && a.2 == b.2
}

/// A titled, ordered list of leaderboards; the order fixes every column order downstream.
pub struct Rally {
    pub title: String,
    pub stages: Vec<StageWithLeaderboard>,
}

/// One driver's outcome on one stage.
#[derive(Clone, Copy, Debug, PartialEq, Eq, Structural)]
pub struct StageResult {
    pub car: usize,
    pub time_ms: usize,
    pub local_rank: usize,
    pub world_rank: Option<usize>,
}

/// A driver and their outcome, if any, on each stage of a rally.
pub struct DriverResult {
    pub name: String,
    pub stages: Vec<Option<StageResult>>,
}

/// Everything resolved for one rally.
pub struct RallyResults {
    pub stages: Vec<StageWithLeaderboard>,
    pub driver_results: Vec<DriverResult>,
    /// For each stage, the drivers with an outcome there, fastest first.
    pub stage_results: Vec<Vec<(String, StageResult)>>,
}

impl RallyResults {
    /// Every outcome array has one slot per stage.
    pub open spec fn wf(&self) -> bool {
        &&& self.stage_results@.len() == self.stages@.len()
        &&& forall|d: int|
            0 <= d < self.driver_results@.len() ==> (#[trigger] self.driver_results@[d]).stages@.len()
                == self.stages@.len()
    }
}

/// One rally of the six forward stages of `area`, dry, for `group`.
fn six_stage_rally(title: &str, area: Location, group: CarClass) -> (r: Rally)
    ensures
        r.title@ == title@,
        r.stages@.len() == 6,
        forall|k: int|
            0 <= k < 6 ==> #[trigger] r.stages@[k] == (
                Stage { area, stage_number: (k + 1) as usize, direction: Heading::Forward },
                group,
                Conditions::Dry,
            ),
{
    let mut stages: Vec<StageWithLeaderboard> = Vec::new();
    let mut n: usize = 1;
    while n <= 6
        invariant
            1 <= n <= 7,
            stages@.len() == n - 1,
            forall|k: int|
                0 <= k < n - 1 ==> #[trigger] stages@[k] == (
                    Stage { area, stage_number: (k + 1) as usize, direction: Heading::Forward },
                    group,
                    Conditions::Dry,
                ),
        decreases 7 - n,
    {
        stages.push((Stage { area, stage_number: n, direction: Heading::Forward }, group, Conditions::Dry));
        n = n + 1;
    }
    Rally { title: String::from_str(title), stages }
}

/// The rallies followed by default: Kenya in group B and Norway in group 4.
pub fn get_default_rallys() -> (r: Vec<Rally>)
    ensures
        r@.len() == 2,
        r@[0].title@ == "kenya - group b"@,
        r@[1].title@ == "norway - group 4"@,
        r@[0].stages@.len() == 6,
        r@[1].stages@.len() == 6,
        forall|k: int|
            0 <= k < 6 ==> #[trigger] r@[0].stages@[k] == (
                Stage { area: Location::Kenya, stage_number: (k + 1) as usize, direction: Heading::Forward },
                CarClass::GroupB,
                Conditions::Dry,
            ),
        forall|k: int|
            0 <= k < 6 ==> #[trigger] r@[1].stages@[k] == (
                Stage { area: Location::Norway, stage_number: (k + 1) as usize, direction: Heading::Forward },
                CarClass::Eighties,
                Conditions::Dry,
            ),
{
    let mut r: Vec<Rally> = Vec::new();
    r.push(six_stage_rally("kenya - group b", Location::Kenya, CarClass::GroupB));
    r.push(six_stage_rally("norway - group 4", Location::Norway, CarClass::Eighties));
    r
}

} // verus!
