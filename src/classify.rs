//! Splits a rally's drivers into full and partial finishers, orders them and finds the
//! fastest times.
use vstd::prelude::*;
use crate::model::{DriverResult, RallyResults, StageResult};
use crate::order::{is_sorted_by, is_total_preorder, lemma_insert_at, lemma_sort_idempotent, lemma_sort_permutes, lemma_sort_sorted, sort_by};

verus! {

/// The outcomes that are there, in stage order.
pub open spec fn present(s: Seq<Option<StageResult>>) -> Seq<StageResult>
    decreases s.len(),
{
    if s.len() == 0 {
        Seq::empty()
    } else {
        let before = present(s.drop_last());
        match s.last() {
            Some(r) => before.push(r),
            None => before,
        }
    }
}

pub open spec fn sum_times(rs: Seq<StageResult>) -> int
    decreases rs.len(),
{
    if rs.len() == 0 {
        0
    } else {
        sum_times(rs.drop_last()) + rs.last().time_ms
    }
}

/// The sum of the times of the outcomes that are there.
pub open spec fn total_of(s: Seq<Option<StageResult>>) -> int {
    sum_times(present(s))
}

/// A driver with an outcome on every stage.
pub open spec fn is_full(d: DriverResult) -> bool {
    present(d.stages@).len() == d.stages@.len()
}

/// A driver with some outcomes but not all.
pub open spec fn is_partial(d: DriverResult) -> bool {
    0 < present(d.stages@).len() < d.stages@.len()
}

/// Every driver's total fits in a `usize`.
pub open spec fn totals_fit(ds: Seq<DriverResult>) -> bool {
    forall|d: int| 0 <= d < ds.len() ==> total_of((#[trigger] ds[d]).stages@) <= usize::MAX
}

/// A driver who finished every stage of a rally.
pub struct FullTime {
    pub total_time: usize,
    pub user_name: String,
    pub stage_times: Vec<usize>,
    pub local_rank: Vec<usize>,
    pub world_rank: Vec<Option<usize>>,
    pub cars: Vec<usize>,
}

pub struct FullTimeView {
    pub total_time: int,
    pub user_name: Seq<char>,
    pub stage_times: Seq<usize>,
    pub local_rank: Seq<usize>,
    pub world_rank: Seq<Option<usize>>,
    pub cars: Seq<usize>,
}

impl View for FullTime {
    type V = FullTimeView;

    open spec fn view(&self) -> FullTimeView {
        FullTimeView {
            total_time: self.total_time as int,
            user_name: self.user_name@,
            stage_times: self.stage_times@,
            local_rank: self.local_rank@,
            world_rank: self.world_rank@,
            cars: self.cars@,
        }
    }
}

/// A driver who finished some stages of a rally but not all.
pub struct PartialTime {
    pub finished_stages: usize,
    pub total_time: usize,
    pub user_name: String,
    pub stage_times: Vec<Option<usize>>,
    pub local_rank: Vec<Option<usize>>,
    pub world_rank: Vec<Option<usize>>,
    pub cars: Vec<Option<usize>>,
}

pub struct PartialTimeView {
    pub finished_stages: int,
    pub total_time: int,
    pub user_name: Seq<char>,
    pub stage_times: Seq<Option<usize>>,
    pub local_rank: Seq<Option<usize>>,
    pub world_rank: Seq<Option<usize>>,
    pub cars: Seq<Option<usize>>,
}

impl View for PartialTime {
    type V = PartialTimeView;

    open spec fn view(&self) -> PartialTimeView {
        PartialTimeView {
            finished_stages: self.finished_stages as int,
            total_time: self.total_time as int,
            user_name: self.user_name@,
            stage_times: self.stage_times@,
            local_rank: self.local_rank@,
            world_rank: self.world_rank@,
            cars: self.cars@,
        }
    }
}

pub open spec fn time_of(o: Option<StageResult>) -> Option<usize> {
    match o {
        Some(r) => Some(r.time_ms),
        None => None,
    }
}

pub open spec fn local_rank_of(o: Option<StageResult>) -> Option<usize> {
    match o {
        Some(r) => Some(r.local_rank),
        None => None,
    }
}

pub open spec fn world_rank_of(o: Option<StageResult>) -> Option<usize> {
    match o {
        Some(r) => r.world_rank,
        None => None,
    }
}

pub open spec fn car_of(o: Option<StageResult>) -> Option<usize> {
    match o {
        Some(r) => Some(r.car),
        None => None,
    }
}

pub open spec fn full_view_of(d: DriverResult) -> FullTimeView {
    let rs = present(d.stages@);
    FullTimeView {
        total_time: total_of(d.stages@),
        user_name: d.name@,
        stage_times: rs.map_values(|r: StageResult| r.time_ms),
        local_rank: rs.map_values(|r: StageResult| r.local_rank),
        world_rank: rs.map_values(|r: StageResult| r.world_rank),
        cars: rs.map_values(|r: StageResult| r.car),
    }
}

pub open spec fn partial_view_of(d: DriverResult) -> PartialTimeView {
    let s = d.stages@;
    PartialTimeView {
        finished_stages: present(s).len() as int,
        total_time: total_of(s),
        user_name: d.name@,
        stage_times: s.map_values(|o: Option<StageResult>| time_of(o)),
        local_rank: s.map_values(|o: Option<StageResult>| local_rank_of(o)),
        world_rank: s.map_values(|o: Option<StageResult>| world_rank_of(o)),
        cars: s.map_values(|o: Option<StageResult>| car_of(o)),
    }
}

/// The full finishers, in driver order.
pub open spec fn fulls(ds: Seq<DriverResult>) -> Seq<FullTimeView>
    decreases ds.len(),
{
    if ds.len() == 0 {
        Seq::empty()
    } else if is_full(ds.last()) {
        fulls(ds.drop_last()).push(full_view_of(ds.last()))
    } else {
        fulls(ds.drop_last())
    }
}

/// The partial finishers, in driver order.
pub open spec fn partials(ds: Seq<DriverResult>) -> Seq<PartialTimeView>
    decreases ds.len(),
{
    if ds.len() == 0 {
        Seq::empty()
    } else if is_partial(ds.last()) {
        partials(ds.drop_last()).push(partial_view_of(ds.last()))
    } else {
        partials(ds.drop_last())
    }
}

/// Full finishers rank by total time.
pub open spec fn full_le(a: FullTimeView, b: FullTimeView) -> bool {
    a.total_time <= b.total_time
}

/// Partial finishers rank by stages finished, most first, then by total time.
pub open spec fn partial_le(a: PartialTimeView, b: PartialTimeView) -> bool {
    a.finished_stages > b.finished_stages || (a.finished_stages == b.finished_stages && a.total_time
        <= b.total_time)
}

pub open spec fn full_views(s: Seq<FullTime>) -> Seq<FullTimeView> {
    s.map_values(|f: FullTime| f@)
}

pub open spec fn partial_views(s: Seq<PartialTime>) -> Seq<PartialTimeView> {
    s.map_values(|p: PartialTime| p@)
}

/// The full finishers in classification order.
pub open spec fn ranked_fulls(ds: Seq<DriverResult>) -> Seq<FullTimeView> {
    sort_by(fulls(ds), |a: FullTimeView, b: FullTimeView| full_le(a, b))
}

/// The partial finishers in classification order.
pub open spec fn ranked_partials(ds: Seq<DriverResult>) -> Seq<PartialTimeView> {
    sort_by(partials(ds), |a: PartialTimeView, b: PartialTimeView| partial_le(a, b))
}

proof fn lemma_total_step(s: Seq<Option<StageResult>>)
    requires
        s.len() > 0,
    ensures
        total_of(s) == total_of(s.drop_last()) + match s.last() {
            Some(r) => r.time_ms as int,
            None => 0,
        },
{
    let p = present(s.drop_last());
    if let Some(r) = s.last() {
        assert(p.push(r).drop_last() =~= p);
    }
}

proof fn lemma_total_prefix(s: Seq<Option<StageResult>>, i: int)
    requires
        0 <= i <= s.len(),
    ensures
        0 <= total_of(s.take(i)) <= total_of(s),
    decreases s.len(),
{
    if i < s.len() {
        lemma_total_prefix(s.drop_last(), i);
        lemma_total_step(s);
        lemma_total_nonneg(s.drop_last());
        assert(s.drop_last().take(i) =~= s.take(i));
    } else {
        assert(s.take(i) =~= s);
    }
    lemma_total_nonneg(s);
}

proof fn lemma_total_nonneg(s: Seq<Option<StageResult>>)
    ensures
        0 <= total_of(s),
    decreases s.len(),
{
    if s.len() > 0 {
        lemma_total_nonneg(s.drop_last());
        lemma_total_step(s);
    }
}

/// The per-stage fields and the totals of one driver, read in a single pass.
fn tally(d: &DriverResult) -> (r: (usize, usize))
    requires
        total_of(d.stages@) <= usize::MAX,
    ensures
        r.0 as int == present(d.stages@).len(),
        r.1 as int == total_of(d.stages@),
{
    let s = &d.stages;
    let mut count: usize = 0;
    let mut total: usize = 0;
    let mut i: usize = 0;
    while i < s.len()
        invariant
            s == &d.stages,
            total_of(s@) <= usize::MAX,
            i <= s@.len(),
            count as int == present(s@.take(i as int)).len(),
            total as int == total_of(s@.take(i as int)),
        decreases s@.len() - i,
    {
        proof {
            assert(s@.take(i + 1).drop_last() =~= s@.take(i as int));
            assert(s@.take(i + 1).last() == s@[i as int]);
            lemma_total_prefix(s@, i + 1);
            lemma_total_step(s@.take(i + 1));
            assert(present(s@.take(i as int)).len() <= i) by {
                lemma_present_len(s@.take(i as int));
            }
        }
        if let Some(r) = s[i] {
            count = count + 1;
            total = total + r.time_ms;
        }
        i = i + 1;
    }
    assert(s@.take(s@.len() as int) =~= s@);
    (count, total)
}

proof fn lemma_present_len(s: Seq<Option<StageResult>>)
    ensures
        present(s).len() <= s.len(),
    decreases s.len(),
{
    if s.len() > 0 {
        lemma_present_len(s.drop_last());
    }
}

fn full_time_of(d: &DriverResult, total: usize) -> (r: FullTime)
    requires
        total as int == total_of(d.stages@),
    ensures
        r@ == full_view_of(*d),
{
    let s = &d.stages;
    let mut stage_times: Vec<usize> = Vec::new();
    let mut local_rank: Vec<usize> = Vec::new();
    let mut world_rank: Vec<Option<usize>> = Vec::new();
    let mut cars: Vec<usize> = Vec::new();
    let mut i: usize = 0;
    while i < s.len()
        invariant
            s == &d.stages,
            i <= s@.len(),
            stage_times@ == present(s@.take(i as int)).map_values(|r: StageResult| r.time_ms),
            local_rank@ == present(s@.take(i as int)).map_values(|r: StageResult| r.local_rank),
            world_rank@ == present(s@.take(i as int)).map_values(|r: StageResult| r.world_rank),
            cars@ == present(s@.take(i as int)).map_values(|r: StageResult| r.car),
        decreases s@.len() - i,
    {
        proof {
            assert(s@.take(i + 1).drop_last() =~= s@.take(i as int));
            assert(s@.take(i + 1).last() == s@[i as int]);
        }
        if let Some(r) = s[i] {
            let ghost p = present(s@.take(i as int));
            stage_times.push(r.time_ms);
            local_rank.push(r.local_rank);
            world_rank.push(r.world_rank);
            cars.push(r.car);
            assert(stage_times@ =~= p.push(r).map_values(|r: StageResult| r.time_ms));
            assert(local_rank@ =~= p.push(r).map_values(|r: StageResult| r.local_rank));
            assert(world_rank@ =~= p.push(r).map_values(|r: StageResult| r.world_rank));
            assert(cars@ =~= p.push(r).map_values(|r: StageResult| r.car));
        }
        i = i + 1;
    }
    assert(s@.take(s@.len() as int) =~= s@);
    FullTime { total_time: total, user_name: d.name.clone(), stage_times, local_rank, world_rank, cars }
}

fn partial_time_of(d: &DriverResult, finished: usize, total: usize) -> (r: PartialTime)
    requires
        finished as int == present(d.stages@).len(),
        total as int == total_of(d.stages@),
    ensures
        r@ == partial_view_of(*d),
{
    let s = &d.stages;
    let mut stage_times: Vec<Option<usize>> = Vec::new();
    let mut local_rank: Vec<Option<usize>> = Vec::new();
    let mut world_rank: Vec<Option<usize>> = Vec::new();
    let mut cars: Vec<Option<usize>> = Vec::new();
    let mut i: usize = 0;
    while i < s.len()
        invariant
            s == &d.stages,
            i <= s@.len(),
            stage_times@ == s@.take(i as int).map_values(|o: Option<StageResult>| time_of(o)),
            local_rank@ == s@.take(i as int).map_values(|o: Option<StageResult>| local_rank_of(o)),
            world_rank@ == s@.take(i as int).map_values(|o: Option<StageResult>| world_rank_of(o)),
            cars@ == s@.take(i as int).map_values(|o: Option<StageResult>| car_of(o)),
        decreases s@.len() - i,
    {
        let o = s[i];
        match o {
            Some(r) => {
                stage_times.push(Some(r.time_ms));
                local_rank.push(Some(r.local_rank));
                world_rank.push(r.world_rank);
                cars.push(Some(r.car));
            },
            None => {
                stage_times.push(None);
                local_rank.push(None);
                world_rank.push(None);
                cars.push(None);
            },
        }
        assert(stage_times@ =~= s@.take(i + 1).map_values(|o: Option<StageResult>| time_of(o)));
        assert(local_rank@ =~= s@.take(i + 1).map_values(|o: Option<StageResult>| local_rank_of(o)));
        assert(world_rank@ =~= s@.take(i + 1).map_values(|o: Option<StageResult>| world_rank_of(o)));
        assert(cars@ =~= s@.take(i + 1).map_values(|o: Option<StageResult>| car_of(o)));
        i = i + 1;
    }
    assert(s@.take(s@.len() as int) =~= s@);
    PartialTime { finished_stages: finished, total_time: total, user_name: d.name.clone(), stage_times, local_rank, world_rank, cars }
}

} // verus!

verus! {

proof fn lemma_full_step(ds: Seq<DriverResult>, d: int)
    requires
        0 <= d < ds.len(),
    ensures
        ds.take(d + 1).drop_last() == ds.take(d),
        ds.take(d + 1).last() == ds[d],
{
    assert(ds.take(d + 1).drop_last() =~= ds.take(d));
}

/// Splits the drivers of a rally into full finishers, fastest total first, and partial
/// finishers, most stages first and then fastest total; ties keep driver order. Drivers
/// with no outcome at all are in neither list.
pub fn split_times(rally: &RallyResults) -> (r: (Vec<FullTime>, Vec<PartialTime>))
    requires
        totals_fit(rally.driver_results@),
    ensures
        full_views(r.0@) == ranked_fulls(rally.driver_results@),
        partial_views(r.1@) == ranked_partials(rally.driver_results@),
{
    let ds = &rally.driver_results;
    let ghost fle = |a: FullTimeView, b: FullTimeView| full_le(a, b);
    let ghost ple = |a: PartialTimeView, b: PartialTimeView| partial_le(a, b);
    let mut full: Vec<FullTime> = Vec::new();
    let mut part: Vec<PartialTime> = Vec::new();
    let mut d: usize = 0;
    while d < ds.len()
        invariant
            ds == &rally.driver_results,
            totals_fit(ds@),
            fle == (|a: FullTimeView, b: FullTimeView| full_le(a, b)),
            ple == (|a: PartialTimeView, b: PartialTimeView| partial_le(a, b)),
            d <= ds@.len(),
            full_views(full@) == sort_by(fulls(ds@.take(d as int)), fle),
            partial_views(part@) == sort_by(partials(ds@.take(d as int)), ple),
        decreases ds@.len() - d,
    {
        proof {
            lemma_full_step(ds@, d as int);
        }
        let driver = &ds[d];
        assert(total_of(ds@[d as int].stages@) <= usize::MAX);
        let (count, total) = tally(driver);
        if count == driver.stages.len() {
            let x = full_time_of(driver, total);
            let mut j: usize = 0;
            while j < full.len() && full[j].total_time <= x.total_time
                invariant
                    j <= full@.len(),
                    fle == (|a: FullTimeView, b: FullTimeView| full_le(a, b)),
                    forall|k: int| 0 <= k < j ==> #[trigger] fle(full@[k]@, x@),
                decreases full@.len() - j,
            {
                j = j + 1;
            }
            proof {
                let v = full_views(full@);
                lemma_insert_at(v, x@, fle, j as int);
                let prev = fulls(ds@.take(d as int));
                assert(prev.push(x@).drop_last() =~= prev);
            }
            let ghost before = full@;
            full.insert(j, x);
            assert(full_views(full@) =~= full_views(before).insert(j as int, x@));
            assert(partials(ds@.take(d + 1)) == partials(ds@.take(d as int)));
        } else if count > 0 {
            proof {
                lemma_present_len(driver.stages@);
            }
            let x = partial_time_of(driver, count, total);
            let mut j: usize = 0;
            while j < part.len() && (part[j].finished_stages > x.finished_stages || (
            part[j].finished_stages == x.finished_stages && part[j].total_time <= x.total_time))
                invariant
                    j <= part@.len(),
                    ple == (|a: PartialTimeView, b: PartialTimeView| partial_le(a, b)),
                    forall|k: int| 0 <= k < j ==> #[trigger] ple(part@[k]@, x@),
                decreases part@.len() - j,
            {
                j = j + 1;
            }
            proof {
                let v = partial_views(part@);
                lemma_insert_at(v, x@, ple, j as int);
                let prev = partials(ds@.take(d as int));
                assert(prev.push(x@).drop_last() =~= prev);
            }
            let ghost before = part@;
            part.insert(j, x);
            assert(partial_views(part@) =~= partial_views(before).insert(j as int, x@));
            assert(fulls(ds@.take(d + 1)) == fulls(ds@.take(d as int)));
        } else {
            assert(fulls(ds@.take(d + 1)) == fulls(ds@.take(d as int)));
            assert(partials(ds@.take(d + 1)) == partials(ds@.take(d as int)));
        }
        d = d + 1;
    }
    assert(ds@.take(ds@.len() as int) =~= ds@);
    (full, part)
}

/// An exec total read as an integer.
pub open spec fn as_int(o: Option<usize>) -> Option<int> {
    match o {
        Some(t) => Some(t as int),
        None => None,
    }
}

/// The smallest total, if there is any finisher.
pub open spec fn min_total(fs: Seq<FullTimeView>) -> Option<int>
    decreases fs.len(),
{
    if fs.len() == 0 {
        None
    } else {
        let t = fs.last().total_time;
        match min_total(fs.drop_last()) {
            Some(m) => Some(if t < m { t } else { m }),
            None => Some(t),
        }
    }
}

/// The fastest time on stage `s` among all drivers with an outcome there.
pub open spec fn fastest_on(ds: Seq<DriverResult>, s: int) -> Option<usize>
    decreases ds.len(),
{
    if ds.len() == 0 {
        None
    } else {
        let before = fastest_on(ds.drop_last(), s);
        match ds.last().stages@[s] {
            None => before,
            Some(r) => match before {
                Some(m) => Some(if r.time_ms < m { r.time_ms } else { m }),
                None => Some(r.time_ms),
            },
        }
    }
}

/// `fastest_on` is missing exactly where no driver has an outcome on the stage, and is
/// otherwise no slower than any of them.
pub proof fn lemma_fastest_on_is_least(ds: Seq<DriverResult>, s: int)
    ensures
        fastest_on(ds, s) is None <==> forall|d: int| 0 <= d < ds.len() ==> (#[trigger] ds[d]).stages@[s] is None,
        forall|d: int|
            0 <= d < ds.len() && (#[trigger] ds[d]).stages@[s] is Some ==> fastest_on(ds, s) is Some
                && fastest_on(ds, s)->Some_0 <= ds[d].stages@[s]->Some_0.time_ms,
    decreases ds.len(),
{
    if ds.len() > 0 {
        let n = ds.len() - 1;
        let t = ds.drop_last();
        lemma_fastest_on_is_least(t, s);
        assert forall|d: int| 0 <= d < n implies #[trigger] ds[d] == t[d] by {}
        if fastest_on(ds, s) is None {
            assert(ds[n].stages@[s] is None);
            assert forall|d: int| 0 <= d < ds.len() implies (#[trigger] ds[d]).stages@[s] is None by {
                if d < n {
                    assert(t[d] == ds[d]);
                }
            }
        } else {
            assert forall|d: int|
                0 <= d < ds.len() && (#[trigger] ds[d]).stages@[s] is Some implies fastest_on(ds, s) is Some
                    && fastest_on(ds, s)->Some_0 <= ds[d].stages@[s]->Some_0.time_ms by {
                if d < n {
                    assert(t[d] == ds[d]);
                    assert(t[d].stages@[s] is Some);
                }
            }
            if ds[n].stages@[s] is None {
                assert(fastest_on(t, s) is Some);
                assert(!(forall|d: int| 0 <= d < ds.len() ==> (#[trigger] ds[d]).stages@[s] is None)) by {
                    let d = choose|d: int| 0 <= d < t.len() && !((#[trigger] t[d]).stages@[s] is None);
                    assert(ds[d] == t[d]);
                }
            }
        }
    }
}

/// Finds the fastest total among `full_times` and the fastest time on each stage among
/// every driver of the rally, full finisher or not.
pub fn fastest_times(full_times: &Vec<FullTime>, rally: &RallyResults) -> (r: (Option<usize>, Vec<Option<usize>>))
    requires
        rally.wf(),
    ensures
        as_int(r.0) == min_total(full_views(full_times@)),
        r.1@.len() == rally.stages@.len(),
        forall|s: int| 0 <= s < rally.stages@.len() ==> #[trigger] r.1@[s] == fastest_on(rally.driver_results@, s),
{
    let mut best: Option<usize> = None;
    let mut i: usize = 0;
    while i < full_times.len()
        invariant
            i <= full_times@.len(),
            as_int(best) == min_total(full_views(full_times@.take(i as int))),
        decreases full_times@.len() - i,
    {
        proof {
            let v = full_views(full_times@.take(i + 1));
            assert(v.drop_last() =~= full_views(full_times@.take(i as int)));
            assert(v.last() == full_times@[i as int]@);
        }
        let t = full_times[i].total_time;
        best = match best {
            Some(m) => Some(if t < m { t } else { m }),
            None => Some(t),
        };
        i = i + 1;
    }
    assert(full_times@.take(full_times@.len() as int) =~= full_times@);

    let ds = &rally.driver_results;
    let mut per_stage: Vec<Option<usize>> = Vec::new();
    let mut s: usize = 0;
    while s < rally.stages.len()
        invariant
            ds == &rally.driver_results,
            rally.wf(),
            s <= rally.stages@.len(),
            per_stage@.len() == s,
            forall|k: int| 0 <= k < s ==> #[trigger] per_stage@[k] == fastest_on(ds@, k),
        decreases rally.stages@.len() - s,
    {
        let mut fast: Option<usize> = None;
        let mut d: usize = 0;
        while d < ds.len()
            invariant
                ds == &rally.driver_results,
                rally.wf(),
                s < rally.stages@.len(),
                d <= ds@.len(),
                fast == fastest_on(ds@.take(d as int), s as int),
            decreases ds@.len() - d,
        {
            proof {
                lemma_full_step(ds@, d as int);
            }
            assert(ds@[d as int].stages@.len() == rally.stages@.len());
            if let Some(r) = ds[d].stages[s] {
                fast = match fast {
                    Some(m) => Some(if r.time_ms < m { r.time_ms } else { m }),
                    None => Some(r.time_ms),
                };
            }
            d = d + 1;
        }
        assert(ds@.take(ds@.len() as int) =~= ds@);
        per_stage.push(fast);
        s = s + 1;
    }
    (best, per_stage)
}

proof fn lemma_orders_are_total()
    ensures
        is_total_preorder(|a: FullTimeView, b: FullTimeView| full_le(a, b)),
        is_total_preorder(|a: PartialTimeView, b: PartialTimeView| partial_le(a, b)),
{
}

/// The classification reorders the finishers into ranking order, and classifying the
/// classified lists again leaves their order as it is.
pub proof fn lemma_classification_idempotent(ds: Seq<DriverResult>)
    ensures
        ranked_fulls(ds).to_multiset() == fulls(ds).to_multiset(),
        ranked_partials(ds).to_multiset() == partials(ds).to_multiset(),
        is_sorted_by(ranked_fulls(ds), |a: FullTimeView, b: FullTimeView| full_le(a, b)),
        is_sorted_by(ranked_partials(ds), |a: PartialTimeView, b: PartialTimeView| partial_le(a, b)),
        sort_by(ranked_fulls(ds), |a: FullTimeView, b: FullTimeView| full_le(a, b)) == ranked_fulls(ds),
        sort_by(ranked_partials(ds), |a: PartialTimeView, b: PartialTimeView| partial_le(a, b))
            == ranked_partials(ds),
{
    lemma_orders_are_total();
    lemma_sort_permutes(fulls(ds), |a: FullTimeView, b: FullTimeView| full_le(a, b));
    lemma_sort_permutes(partials(ds), |a: PartialTimeView, b: PartialTimeView| partial_le(a, b));
    lemma_sort_sorted(fulls(ds), |a: FullTimeView, b: FullTimeView| full_le(a, b));
    lemma_sort_sorted(partials(ds), |a: PartialTimeView, b: PartialTimeView| partial_le(a, b));
    lemma_sort_idempotent(fulls(ds), |a: FullTimeView, b: FullTimeView| full_le(a, b));
    lemma_sort_idempotent(partials(ds), |a: PartialTimeView, b: PartialTimeView| partial_le(a, b));
}

proof fn lemma_nothing_present(s: Seq<Option<StageResult>>)
    requires
        forall|i: int| 0 <= i < s.len() ==> (#[trigger] s[i]) is None,
    ensures
        present(s).len() == 0,
    decreases s.len(),
{
    if s.len() > 0 {
        lemma_nothing_present(s.drop_last());
    }
}

proof fn lemma_no_fulls(ds: Seq<DriverResult>, n: int)
    requires
        n > 0,
        forall|d: int| 0 <= d < ds.len() ==> (#[trigger] ds[d]).stages@.len() == n,
        forall|d: int, s: int| 0 <= d < ds.len() && 0 <= s < n ==> (#[trigger] ds[d].stages@[s]) is None,
    ensures
        fulls(ds).len() == 0,
    decreases ds.len(),
{
    if ds.len() > 0 {
        let last = ds[ds.len() - 1];
        assert forall|i: int| 0 <= i < last.stages@.len() implies (#[trigger] last.stages@[i]) is None by {
            assert(ds[ds.len() - 1].stages@[i] is None);
        }
        lemma_nothing_present(last.stages@);
        lemma_no_fulls(ds.drop_last(), n);
    }
}

/// A rally with stages where nobody has an outcome has no fastest total and no fastest
/// time on any stage.
pub proof fn lemma_nothing_driven(rally: RallyResults)
    requires
        rally.wf(),
        rally.stages@.len() > 0,
        forall|d: int, s: int|
            0 <= d < rally.driver_results@.len() && 0 <= s < rally.stages@.len() ==> (
            #[trigger] rally.driver_results@[d].stages@[s]) is None,
    ensures
        min_total(ranked_fulls(rally.driver_results@)) is None,
        forall|s: int| 0 <= s < rally.stages@.len() ==> #[trigger] fastest_on(rally.driver_results@, s) is None,
{
    let ds = rally.driver_results@;
    lemma_no_fulls(ds, rally.stages@.len() as int);
    lemma_orders_are_total();
    crate::order::lemma_sort_sorted(fulls(ds), |a: FullTimeView, b: FullTimeView| full_le(a, b));
    assert forall|s: int| 0 <= s < rally.stages@.len() implies #[trigger] fastest_on(ds, s) is None by {
        lemma_fastest_on_is_least(ds, s);
    }
}

/// Whether a driver's total fits in a `usize`.
pub fn total_fits(d: &DriverResult) -> (r: bool)
    ensures
        r == (total_of(d.stages@) <= usize::MAX),
{
    let s = &d.stages;
    let mut total: usize = 0;
    let mut i: usize = 0;
    while i < s.len()
        invariant
            s == &d.stages,
            i <= s@.len(),
            total as int == total_of(s@.take(i as int)),
        decreases s@.len() - i,
    {
        proof {
            assert(s@.take(i + 1).drop_last() =~= s@.take(i as int));
            assert(s@.take(i + 1).last() == s@[i as int]);
            lemma_total_step(s@.take(i + 1));
        }
        if let Some(r) = s[i] {
            if r.time_ms > usize::MAX - total {
                proof {
                    lemma_total_prefix(s@, i + 1);
                }
                return false;
            }
            total = total + r.time_ms;
        }
        i = i + 1;
    }
    assert(s@.take(s@.len() as int) =~= s@);
    true
}

/// Whether every driver's total fits in a `usize`.
pub fn all_totals_fit(ds: &Vec<DriverResult>) -> (r: bool)
    ensures
        r == totals_fit(ds@),
{
    let mut d: usize = 0;
    while d < ds.len()
        invariant
            d <= ds@.len(),
            forall|k: int| 0 <= k < d ==> total_of((#[trigger] ds@[k]).stages@) <= usize::MAX,
        decreases ds@.len() - d,
    {
        if !total_fits(&ds[d]) {
            return false;
        }
        d = d + 1;
    }
    true
}

/// The drivers with no outcome on a rally that has stages, in driver order.
pub open spec fn idle(ds: Seq<DriverResult>) -> Seq<Seq<char>>
    decreases ds.len(),
{
    if ds.len() == 0 {
        Seq::empty()
    } else if !is_full(ds.last()) && !is_partial(ds.last()) {
        idle(ds.drop_last()).push(ds.last().name@)
    } else {
        idle(ds.drop_last())
    }
}

/// The names of the drivers that are in neither list of `split_times`: no outcome at all.
pub fn idle_drivers(rally: &RallyResults) -> (r: Vec<String>)
    ensures
        r@.map_values(|n: String| n@) == idle(rally.driver_results@),
{
    let ds = &rally.driver_results;
    let mut out: Vec<String> = Vec::new();
    let mut d: usize = 0;
    while d < ds.len()
        invariant
            ds == &rally.driver_results,
            d <= ds@.len(),
            out@.map_values(|n: String| n@) == idle(ds@.take(d as int)),
        decreases ds@.len() - d,
    {
        proof {
            lemma_full_step(ds@, d as int);
            lemma_present_len(ds@[d as int].stages@);
        }
        let driver = &ds[d];
        let mut any = false;
        let mut i: usize = 0;
        while i < driver.stages.len()
            invariant
                i <= driver.stages@.len(),
                any == exists|k: int| 0 <= k < i && (#[trigger] driver.stages@[k]) is Some,
            decreases driver.stages@.len() - i,
        {
            if driver.stages[i].is_some() {
                any = true;
            }
            i = i + 1;
        }
        proof {
            if !any {
                lemma_nothing_present(driver.stages@);
            } else {
                lemma_some_present(driver.stages@);
            }
        }
        if !any && driver.stages.len() > 0 {
            let ghost before = out@;
            out.push(driver.name.clone());
            assert(out@.map_values(|n: String| n@) =~= before.map_values(|n: String| n@).push(driver.name@));
        }
        d = d + 1;
    }
    assert(ds@.take(ds@.len() as int) =~= ds@);
    out
}

proof fn lemma_some_present(s: Seq<Option<StageResult>>)
    requires
        exists|k: int| 0 <= k < s.len() && (#[trigger] s[k]) is Some,
    ensures
        present(s).len() > 0,
    decreases s.len(),
{
    if s.last() is None {
        let k = choose|k: int| 0 <= k < s.len() && (#[trigger] s[k]) is Some;
        assert(s.drop_last()[k] == s[k]);
        lemma_some_present(s.drop_last());
    }
}

} // verus!
