//! Snapshots and the change report between two of them.
use vstd::prelude::*;
use crate::classify::{all_totals_fit, ranked_fulls, split_times, totals_fit, full_views, FullTimeView};
use crate::diff::{diff_scope, row_views, scope_rows, standing_views, Row, Standing, StandingView};
use crate::model::{same_leaderboard, DriverResult, GamePlatform, Rally, RallyResults, StageWithLeaderboard};

verus! {

/// One fetch cycle's capture: the rallies, their results, the platform and the drivers
/// queried.
pub struct Snapshot {
    pub rallys: Vec<Rally>,
    pub results: Vec<RallyResults>,
    pub platform: GamePlatform,
    pub user_ids: Vec<u64>,
    pub user_names: Vec<String>,
}

impl Snapshot {
    /// One result per rally, each well formed with totals that fit.
    pub open spec fn wf(&self) -> bool {
        &&& self.rallys@.len() == self.results@.len()
        &&& forall|k: int|
            0 <= k < self.results@.len() ==> (#[trigger] self.results@[k]).wf() && totals_fit(
                self.results@[k].driver_results@,
            )
    }
}

impl RallyResults {
    /// Whether every outcome array has one slot per stage and every total fits.
    pub fn is_well_formed(&self) -> (r: bool)
        ensures
            r == (self.wf() && totals_fit(self.driver_results@)),
    {
        if self.stage_results.len() != self.stages.len() {
            return false;
        }
        let mut d: usize = 0;
        while d < self.driver_results.len()
            invariant
                d <= self.driver_results@.len(),
                forall|k: int|
                    0 <= k < d ==> (#[trigger] self.driver_results@[k]).stages@.len() == self.stages@.len(),
            decreases self.driver_results@.len() - d,
        {
            if self.driver_results[d].stages.len() != self.stages.len() {
                return false;
            }
            d = d + 1;
        }
        all_totals_fit(&self.driver_results)
    }
}

impl Snapshot {
    /// Whether the snapshot can be compared: see `wf`.
    pub fn is_well_formed(&self) -> (r: bool)
        ensures
            r == self.wf(),
    {
        if self.rallys.len() != self.results.len() {
            return false;
        }
        let mut k: usize = 0;
        while k < self.results.len()
            invariant
                k <= self.results@.len(),
                forall|j: int|
                    0 <= j < k ==> (#[trigger] self.results@[j]).wf() && totals_fit(self.results@[j].driver_results@),
            decreases self.results@.len() - k,
        {
            if !self.results[k].is_well_formed() {
                return false;
            }
            k = k + 1;
        }
        true
    }
}

/// The drivers with an outcome on stage `s`, by local rank and time, in driver order.
pub open spec fn stage_standings(ds: Seq<DriverResult>, s: int) -> Seq<StandingView>
    decreases ds.len(),
{
    if ds.len() == 0 {
        Seq::empty()
    } else {
        let before = stage_standings(ds.drop_last(), s);
        match ds.last().stages@[s] {
            Some(r) => before.push(StandingView { name: ds.last().name@, time: r.time_ms, rank: r.local_rank }),
            None => before,
        }
    }
}

/// The full finishers by total time, ranked by their place in the classification.
pub open spec fn overall_standings(fs: Seq<FullTimeView>) -> Seq<StandingView> {
    Seq::new(
        fs.len(),
        |i: int| StandingView { name: fs[i].user_name, time: fs[i].total_time as usize, rank: (i + 1) as usize },
    )
}

/// The index of the first rally titled `title`.
pub open spec fn matching_rally(rallys: Seq<Rally>, title: Seq<char>) -> Option<int>
    decreases rallys.len(),
{
    if rallys.len() == 0 {
        None
    } else if rallys[0].title@ == title {
        Some(0)
    } else {
        match matching_rally(rallys.skip(1), title) {
            Some(i) => Some(i + 1),
            None => None,
        }
    }
}

pub open spec fn owned<T>(o: Option<&T>) -> Option<T> {
    match o {
        Some(x) => Some(*x),
        None => None,
    }
}

/// The previous results of the rally titled `title`, if there are any.
pub open spec fn previous_results(prev: Option<Snapshot>, title: Seq<char>) -> Option<RallyResults> {
    match prev {
        Some(p) => match matching_rally(p.rallys@, title) {
            Some(i) => Some(p.results@[i]),
            None => None,
        },
        None => None,
    }
}

/// The previous overall standings of a rally.
pub open spec fn previous_overall(pr: Option<RallyResults>) -> Seq<StandingView> {
    match pr {
        Some(r) => overall_standings(ranked_fulls(r.driver_results@)),
        None => Seq::empty(),
    }
}

/// The previous standings of stage `s`, if the previous rally had the same leaderboard there.
pub open spec fn previous_stage(pr: Option<RallyResults>, stage: StageWithLeaderboard, s: int) -> Seq<StandingView> {
    match pr {
        Some(r) => if s < r.stages@.len() && r.stages@[s] == stage {
            stage_standings(r.driver_results@, s)
        } else {
            Seq::empty()
        },
        None => Seq::empty(),
    }
}

/// The events of one rally: overall, and for each stage.
pub struct RallyChanges {
    pub title: String,
    pub overall: Vec<Row>,
    pub stages: Vec<Vec<Row>>,
}

fn stage_standings_of(ds: &Vec<DriverResult>, s: usize) -> (r: Vec<Standing>)
    requires
        forall|k: int| 0 <= k < ds@.len() ==> s < (#[trigger] ds@[k]).stages@.len(),
    ensures
        standing_views(r@) == stage_standings(ds@, s as int),
{
    let mut out: Vec<Standing> = Vec::new();
    let mut d: usize = 0;
    while d < ds.len()
        invariant
            forall|k: int| 0 <= k < ds@.len() ==> s < (#[trigger] ds@[k]).stages@.len(),
            d <= ds@.len(),
            standing_views(out@) == stage_standings(ds@.take(d as int), s as int),
        decreases ds@.len() - d,
    {
        assert(ds@.take(d + 1).drop_last() =~= ds@.take(d as int));
        assert(ds@.take(d + 1).last() == ds@[d as int]);
        if let Some(r) = ds[d].stages[s] {
            let ghost before = out@;
            out.push(Standing { name: ds[d].name.clone(), time: r.time_ms, rank: r.local_rank });
            assert(standing_views(out@) =~= standing_views(before).push(out@.last()@));
        }
        d = d + 1;
    }
    assert(ds@.take(ds@.len() as int) =~= ds@);
    out
}

fn overall_standings_of(rally: &RallyResults) -> (r: Vec<Standing>)
    requires
        totals_fit(rally.driver_results@),
    ensures
        standing_views(r@) == overall_standings(ranked_fulls(rally.driver_results@)),
{
    let (full, _) = split_times(rally);
    let ghost fs = ranked_fulls(rally.driver_results@);
    let mut out: Vec<Standing> = Vec::new();
    let mut i: usize = 0;
    while i < full.len()
        invariant
            full_views(full@) == fs,
            i <= full@.len(),
            standing_views(out@) == overall_standings(fs).take(i as int),
        decreases full@.len() - i,
    {
        assert(full_views(full@)[i as int] == full@[i as int]@);
        let ghost before = out@;
        out.push(Standing { name: full[i].user_name.clone(), time: full[i].total_time, rank: i + 1 });
        assert(standing_views(out@) =~= standing_views(before).push(out@.last()@));
        assert(out@.last()@ == overall_standings(fs)[i as int]);
        assert(standing_views(out@) =~= overall_standings(fs).take(i + 1));
        i = i + 1;
    }
    assert(overall_standings(fs).take(full@.len() as int) =~= overall_standings(fs));
    out
}

fn find_rally(rallys: &Vec<Rally>, title: &String) -> (r: Option<usize>)
    ensures
        match r {
            Some(i) => i < rallys@.len() && matching_rally(rallys@, title@) == Some(i as int),
            None => matching_rally(rallys@, title@) is None,
        },
{
    let mut i: usize = 0;
    assert(rallys@.skip(0) =~= rallys@);
    while i < rallys.len()
        invariant
            i <= rallys@.len(),
            matching_rally(rallys@, title@) == match matching_rally(rallys@.skip(i as int), title@) {
                Some(j) => Some(j + i),
                None => None,
            },
        decreases rallys@.len() - i,
    {
        assert(rallys@.skip(i as int)[0] == rallys@[i as int]);
        assert(rallys@.skip(i as int).skip(1) =~= rallys@.skip(i + 1));
        if rallys[i].title == *title {
            return Some(i);
        }
        i = i + 1;
    }
    None
}

/// Compares every rally of `cur` with the rally of the same title in `prev`: the events of
/// its overall standings and of each of its stages, a stage being compared only with the
/// previous rally's stage at the same position when that is the same leaderboard. Without
/// a previous rally every standing is new.
pub fn diff_snapshots(cur: &Snapshot, prev: Option<&Snapshot>) -> (r: Vec<RallyChanges>)
    requires
        cur.wf(),
        match prev {
            Some(p) => p.wf(),
            None => true,
        },
    ensures
        r@.len() == cur.rallys@.len(),
        forall|k: int| 0 <= k < r@.len() ==> (#[trigger] r@[k]).title@ == cur.rallys@[k].title@,
        forall|k: int|
            0 <= k < r@.len() ==> row_views((#[trigger] r@[k]).overall@) == scope_rows(
                overall_standings(ranked_fulls(cur.results@[k].driver_results@)),
                previous_overall(previous_results(owned(prev), cur.rallys@[k].title@)),
            ),
        forall|k: int| 0 <= k < r@.len() ==> (#[trigger] r@[k]).stages@.len() == cur.results@[k].stages@.len(),
        forall|k: int, s: int|
            0 <= k < r@.len() && 0 <= s < cur.results@[k].stages@.len() ==> row_views(
                (#[trigger] r@[k].stages@[s])@,
            ) == scope_rows(
                stage_standings(cur.results@[k].driver_results@, s),
                previous_stage(
                    previous_results(owned(prev), cur.rallys@[k].title@),
                    cur.results@[k].stages@[s],
                    s,
                ),
            ),
{
    let ghost pv = owned(prev);
    let mut out: Vec<RallyChanges> = Vec::new();
    let mut k: usize = 0;
    while k < cur.rallys.len()
        invariant
            cur.wf(),
            pv == owned(prev),
            match prev {
                Some(p) => p.wf(),
                None => true,
            },
            k <= cur.rallys@.len(),
            out@.len() == k,
            forall|j: int| 0 <= j < k ==> (#[trigger] out@[j]).title@ == cur.rallys@[j].title@,
            forall|j: int|
                0 <= j < k ==> row_views((#[trigger] out@[j]).overall@) == scope_rows(
                    overall_standings(ranked_fulls(cur.results@[j].driver_results@)),
                    previous_overall(previous_results(pv, cur.rallys@[j].title@)),
                ),
            forall|j: int| 0 <= j < k ==> (#[trigger] out@[j]).stages@.len() == cur.results@[j].stages@.len(),
            forall|j: int, s: int|
                0 <= j < k && 0 <= s < cur.results@[j].stages@.len() ==> row_views(
                    (#[trigger] out@[j].stages@[s])@,
                ) == scope_rows(
                    stage_standings(cur.results@[j].driver_results@, s),
                    previous_stage(previous_results(pv, cur.rallys@[j].title@), cur.results@[j].stages@[s], s),
                ),
        decreases cur.rallys@.len() - k,
    {
        let title = &cur.rallys[k].title;
        let results = &cur.results[k];
        assert(results.wf() && totals_fit(results.driver_results@));
        let previous: Option<&RallyResults> = match prev {
            Some(p) => match find_rally(&p.rallys, title) {
                Some(i) => {
                    assert(p.results@[i as int].wf() && totals_fit(p.results@[i as int].driver_results@));
                    Some(&p.results[i])
                },
                None => None,
            },
            None => None,
        };
        let ghost pr = previous_results(pv, title@);
        assert(owned(previous) == pr);
        assert(match previous {
            Some(x) => x.wf() && totals_fit(x.driver_results@),
            None => true,
        });

        let current_overall = overall_standings_of(results);
        let previous_overall_list = match previous {
            Some(p) => overall_standings_of(p),
            None => Vec::new(),
        };
        assert(standing_views(previous_overall_list@) =~= previous_overall(pr));
        let overall = diff_scope(&current_overall, &previous_overall_list);

        let mut stages: Vec<Vec<Row>> = Vec::new();
        let mut s: usize = 0;
        while s < results.stages.len()
            invariant
                results.wf(),
                owned(previous) == pr,
                match previous {
                    Some(p) => p.wf() && totals_fit(p.driver_results@),
                    None => true,
                },
                s <= results.stages@.len(),
                stages@.len() == s,
                forall|t: int|
                    0 <= t < s ==> row_views((#[trigger] stages@[t])@) == scope_rows(
                        stage_standings(results.driver_results@, t),
                        previous_stage(pr, results.stages@[t], t),
                    ),
            decreases results.stages@.len() - s,
        {
            let current_stage = stage_standings_of(&results.driver_results, s);
            let previous_list = match previous {
                Some(p) => if s < p.stages.len() && same_leaderboard(&p.stages[s], &results.stages[s]) {
                    stage_standings_of(&p.driver_results, s)
                } else {
                    Vec::new()
                },
                None => Vec::new(),
            };
            assert(standing_views(previous_list@) =~= previous_stage(pr, results.stages@[s as int], s as int));
            stages.push(diff_scope(&current_stage, &previous_list));
            s = s + 1;
        }
        out.push(RallyChanges { title: title.clone(), overall, stages });
        k = k + 1;
    }
    out
}

} // verus!
