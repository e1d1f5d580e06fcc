//! Identity recovery: the friends leaderboard names nobody reliably, so its rows are
//! paired, best to worst, with the drivers ordered by their own world-rank answers.
use vstd::prelude::*;
use crate::model::{DriverResult, RallyResults, StageResult, StageWithLeaderboard};
use crate::order::{is_total_preorder, is_sorted_by, lemma_insert_at, lemma_sort_of_sorted, lemma_sort_permutes, lemma_sort_sorted, sort_by};

verus! {

/// One anonymous row of a friends leaderboard.
#[derive(Clone, Copy, Debug, PartialEq, Eq, Structural)]
pub struct LeaderboardRow {
    pub local_rank: usize,
    pub time_ms: usize,
    pub car: usize,
}

pub open spec fn row_le(a: LeaderboardRow, b: LeaderboardRow) -> bool {
    a.local_rank <= b.local_rank
}

pub open spec fn world_le(a: (usize, usize), b: (usize, usize)) -> bool {
    a.0 <= b.0
}

/// `(world rank, driver index)` for every driver whose rank query answered, in driver order.
pub open spec fn ranked_drivers(ranks: Seq<Option<usize>>) -> Seq<(usize, usize)>
    decreases ranks.len(),
{
    if ranks.len() == 0 {
        Seq::empty()
    } else {
        let before = ranked_drivers(ranks.drop_last());
        match ranks.last() {
            Some(w) => before.push((w, (ranks.len() - 1) as usize)),
            None => before,
        }
    }
}

/// The outcome of pairing the i-th best leaderboard row with the i-th best world rank.
pub open spec fn pair_outcome(row: LeaderboardRow, world: (usize, usize)) -> (usize, StageResult) {
    (world.1, StageResult { car: row.car, time_ms: row.time_ms, local_rank: row.local_rank, world_rank: Some(world.0) })
}

/// One stage resolved: rows by local rank and drivers by world rank, paired by position
/// up to the shorter of the two.
pub open spec fn resolved(rows: Seq<LeaderboardRow>, ranks: Seq<Option<usize>>) -> Seq<(usize, StageResult)> {
    let e = sort_by(rows, |a: LeaderboardRow, b: LeaderboardRow| row_le(a, b));
    let w = sort_by(ranked_drivers(ranks), |a: (usize, usize), b: (usize, usize)| world_le(a, b));
    let n = if e.len() < w.len() { e.len() } else { w.len() };
    Seq::new(n, |i: int| pair_outcome(e[i], w[i]))
}

fn sort_rows(rows: &Vec<LeaderboardRow>) -> (r: Vec<LeaderboardRow>)
    ensures
        r@ == sort_by(rows@, |a: LeaderboardRow, b: LeaderboardRow| row_le(a, b)),
{
    let ghost le = |a: LeaderboardRow, b: LeaderboardRow| row_le(a, b);
    let mut out: Vec<LeaderboardRow> = Vec::new();
    let mut i: usize = 0;
    while i < rows.len()
        invariant
            i <= rows@.len(),
            le == (|a: LeaderboardRow, b: LeaderboardRow| row_le(a, b)),
            out@ == sort_by(rows@.take(i as int), le),
        decreases rows@.len() - i,
    {
        let x = rows[i];
        let mut j: usize = 0;
        while j < out.len() && out[j].local_rank <= x.local_rank
            invariant
                j <= out@.len(),
                le == (|a: LeaderboardRow, b: LeaderboardRow| row_le(a, b)),
                forall|k: int| 0 <= k < j ==> #[trigger] le(out@[k], x),
            decreases out@.len() - j,
        {
            j = j + 1;
        }
        proof {
            lemma_insert_at(out@, x, le, j as int);
            assert(rows@.take(i + 1).drop_last() =~= rows@.take(i as int));
        }
        out.insert(j, x);
        i = i + 1;
    }
    assert(rows@.take(rows@.len() as int) =~= rows@);
    out
}

fn ranked(ranks: &Vec<Option<usize>>) -> (r: Vec<(usize, usize)>)
    ensures
        r@ == sort_by(ranked_drivers(ranks@), |a: (usize, usize), b: (usize, usize)| world_le(a, b)),
{
    let ghost le = |a: (usize, usize), b: (usize, usize)| world_le(a, b);
    let mut out: Vec<(usize, usize)> = Vec::new();
    let mut d: usize = 0;
    while d < ranks.len()
        invariant
            d <= ranks@.len(),
            le == (|a: (usize, usize), b: (usize, usize)| world_le(a, b)),
            out@ == sort_by(ranked_drivers(ranks@.take(d as int)), le),
        decreases ranks@.len() - d,
    {
        assert(ranks@.take(d + 1).drop_last() =~= ranks@.take(d as int));
        assert(ranks@.take(d + 1).last() == ranks@[d as int]);
        if let Some(w) = ranks[d] {
            let x = (w, d);
            let mut j: usize = 0;
            while j < out.len() && out[j].0 <= w
                invariant
                    j <= out@.len(),
                    le == (|a: (usize, usize), b: (usize, usize)| world_le(a, b)),
                    x.0 == w,
                    forall|k: int| 0 <= k < j ==> #[trigger] le(out@[k], x),
                decreases out@.len() - j,
            {
                j = j + 1;
            }
            proof {
                lemma_insert_at(out@, x, le, j as int);
                let prev = ranked_drivers(ranks@.take(d as int));
                assert(ranked_drivers(ranks@.take(d + 1)) == prev.push(x));
                assert(prev.push(x).drop_last() =~= prev);
            }
            out.insert(j, x);
        }
        d = d + 1;
    }
    assert(ranks@.take(ranks@.len() as int) =~= ranks@);
    out
}

/// Pairs one stage's leaderboard rows with the drivers, given each driver's world rank
/// there (`None` where the query failed: that driver takes no row).
pub fn resolve_stage(rows: &Vec<LeaderboardRow>, ranks: &Vec<Option<usize>>) -> (r: Vec<(usize, StageResult)>)
    ensures
        r@ == resolved(rows@, ranks@),
{
    let e = sort_rows(rows);
    let w = ranked(ranks);
    let n = if e.len() < w.len() { e.len() } else { w.len() };
    let mut out: Vec<(usize, StageResult)> = Vec::new();
    let mut i: usize = 0;
    while i < n
        invariant
            n <= e@.len(),
            n <= w@.len(),
            i <= n,
            out@.len() == i,
            forall|k: int| 0 <= k < i ==> #[trigger] out@[k] == pair_outcome(e@[k], w@[k]),
        decreases n - i,
    {
        let row = e[i];
        let world = w[i];
        out.push((world.1, StageResult { car: row.car, time_ms: row.time_ms, local_rank: row.local_rank, world_rank: Some(world.0) }));
        i = i + 1;
    }
    assert(out@ =~= resolved(rows@, ranks@));
    out
}

} // verus!

verus! {

/// What driver `d` gets from a stage's pairs: the last pair that names them.
pub open spec fn outcome_for(pairs: Seq<(usize, StageResult)>, d: int) -> Option<StageResult>
    decreases pairs.len(),
{
    if pairs.len() == 0 {
        None
    } else if pairs.last().0 == d {
        Some(pairs.last().1)
    } else {
        outcome_for(pairs.drop_last(), d)
    }
}

/// The rows of a fetched leaderboard; a failed fetch has none.
pub open spec fn board_rows(board: Option<Vec<LeaderboardRow>>) -> Seq<LeaderboardRow> {
    match board {
        Some(v) => v@,
        None => Seq::empty(),
    }
}

/// World ranks are laid out driver by driver, each with one slot per stage: the ranks of
/// stage `s` in driver order.
pub open spec fn stage_ranks(world_ranks: Seq<Option<usize>>, n_drivers: int, n_stages: int, s: int) -> Seq<Option<usize>> {
    Seq::new(n_drivers as nat, |u: int| world_ranks[u * n_stages + s])
}

/// The pairs resolved for stage `s` of a rally.
pub open spec fn stage_pairs(
    boards: Seq<Option<Vec<LeaderboardRow>>>,
    world_ranks: Seq<Option<usize>>,
    n_drivers: int,
    s: int,
) -> Seq<(usize, StageResult)> {
    resolved(board_rows(boards[s]), stage_ranks(world_ranks, n_drivers, boards.len() as int, s))
}

pub open spec fn time_le(a: (String, StageResult), b: (String, StageResult)) -> bool {
    a.1.time_ms <= b.1.time_ms
}

/// The drivers with an outcome on stage `s`, with it, in driver order.
pub open spec fn stage_list(ds: Seq<DriverResult>, s: int) -> Seq<(String, StageResult)>
    decreases ds.len(),
{
    if ds.len() == 0 {
        Seq::empty()
    } else {
        let before = stage_list(ds.drop_last(), s);
        match ds.last().stages@[s] {
            Some(r) => before.push((ds.last().name, r)),
            None => before,
        }
    }
}

fn find_outcome(pairs: &Vec<(usize, StageResult)>, d: usize) -> (r: Option<StageResult>)
    ensures
        r == outcome_for(pairs@, d as int),
{
    let mut i: usize = pairs.len();
    assert(pairs@.take(i as int) =~= pairs@);
    while i > 0
        invariant
            i <= pairs@.len(),
            outcome_for(pairs@, d as int) == outcome_for(pairs@.take(i as int), d as int),
        decreases i,
    {
        assert(pairs@.take(i as int).drop_last() =~= pairs@.take(i - 1));
        if pairs[i - 1].0 == d {
            return Some(pairs[i - 1].1);
        }
        i = i - 1;
    }
    None
}

fn ranks_of_stage(world_ranks: &Vec<Option<usize>>, n_drivers: usize, n_stages: usize, s: usize) -> (r: Vec<Option<usize>>)
    requires
        world_ranks@.len() == n_drivers * n_stages,
        s < n_stages,
    ensures
        r@ == stage_ranks(world_ranks@, n_drivers as int, n_stages as int, s as int),
{
    let mut out: Vec<Option<usize>> = Vec::new();
    let total = world_ranks.len();
    let mut u: usize = 0;
    while u < n_drivers
        invariant
            world_ranks@.len() == n_drivers * n_stages,
            total == world_ranks@.len(),
            s < n_stages,
            u <= n_drivers,
            out@.len() == u,
            forall|k: int| 0 <= k < u ==> #[trigger] out@[k] == world_ranks@[k * n_stages + s],
        decreases n_drivers - u,
    {
        assert(u * n_stages + s < n_drivers * n_stages) by (nonlinear_arith)
            requires
                u < n_drivers,
                s < n_stages,
        ;
        assert(u * n_stages <= u * n_stages + s);
        out.push(world_ranks[u * n_stages + s]);
        u = u + 1;
    }
    assert(out@ =~= stage_ranks(world_ranks@, n_drivers as int, n_stages as int, s as int));
    out
}

/// Resolves every stage of a rally and folds the outcomes into one array per driver.
///
/// `boards[s]` is the friends leaderboard of stage `s` (`None` if it could not be had);
/// `world_ranks` holds, driver by driver, each driver's world rank on each stage.
pub fn get_rally_results(
    stages: Vec<StageWithLeaderboard>,
    boards: &Vec<Option<Vec<LeaderboardRow>>>,
    world_ranks: &Vec<Option<usize>>,
    user_names: &Vec<String>,
) -> (r: RallyResults)
    requires
        boards@.len() == stages@.len(),
        world_ranks@.len() == user_names@.len() * stages@.len(),
    ensures
        r.wf(),
        r.stages@ == stages@,
        r.driver_results@.len() == user_names@.len(),
        forall|d: int| 0 <= d < user_names@.len() ==> (#[trigger] r.driver_results@[d]).name == user_names@[d],
        forall|d: int, s: int|
            0 <= d < user_names@.len() && 0 <= s < stages@.len() ==> (#[trigger] r.driver_results@[d].stages@[s])
                == outcome_for(
                resolved(
                    board_rows(boards@[s]),
                    stage_ranks(world_ranks@, user_names@.len() as int, stages@.len() as int, s),
                ),
                d,
            ),
        forall|s: int|
            0 <= s < stages@.len() ==> (#[trigger] r.stage_results@[s])@ == sort_by(
                stage_list(r.driver_results@, s),
                |a: (String, StageResult), b: (String, StageResult)| time_le(a, b),
            ),
{
    let n_stages = stages.len();
    let n_drivers = user_names.len();

    let mut pairs: Vec<Vec<(usize, StageResult)>> = Vec::new();
    let mut s: usize = 0;
    while s < n_stages
        invariant
            n_stages == stages@.len(),
            n_drivers == user_names@.len(),
            boards@.len() == n_stages,
            world_ranks@.len() == n_drivers * n_stages,
            s <= n_stages,
            pairs@.len() == s,
            forall|k: int| 0 <= k < s ==> (#[trigger] pairs@[k])@ == stage_pairs(boards@, world_ranks@, n_drivers as int, k),
        decreases n_stages - s,
    {
        let ranks = ranks_of_stage(world_ranks, n_drivers, n_stages, s);
        let found = match &boards[s] {
            Some(rows) => resolve_stage(rows, &ranks),
            None => {
                let none: Vec<LeaderboardRow> = Vec::new();
                assert(none@ == board_rows(boards@[s as int]));
                resolve_stage(&none, &ranks)
            },
        };
        assert(found@ == stage_pairs(boards@, world_ranks@, n_drivers as int, s as int));
        pairs.push(found);
        s = s + 1;
    }

    let mut driver_results: Vec<DriverResult> = Vec::new();
    let mut d: usize = 0;
    while d < n_drivers
        invariant
            n_stages == stages@.len(),
            n_drivers == user_names@.len(),
            pairs@.len() == n_stages,
            forall|k: int| 0 <= k < n_stages ==> (#[trigger] pairs@[k])@ == stage_pairs(boards@, world_ranks@, n_drivers as int, k),
            d <= n_drivers,
            driver_results@.len() == d,
            forall|k: int| 0 <= k < d ==> (#[trigger] driver_results@[k]).name == user_names@[k],
            forall|k: int| 0 <= k < d ==> (#[trigger] driver_results@[k]).stages@.len() == n_stages,
            forall|k: int, t: int|
                0 <= k < d && 0 <= t < n_stages ==> (#[trigger] driver_results@[k].stages@[t])
                    == outcome_for(stage_pairs(boards@, world_ranks@, n_drivers as int, t), k),
        decreases n_drivers - d,
    {
        let mut outcomes: Vec<Option<StageResult>> = Vec::new();
        let mut t: usize = 0;
        while t < n_stages
            invariant
                pairs@.len() == n_stages,
                forall|k: int| 0 <= k < n_stages ==> (#[trigger] pairs@[k])@ == stage_pairs(boards@, world_ranks@, n_drivers as int, k),
                t <= n_stages,
                outcomes@.len() == t,
                forall|k: int| 0 <= k < t ==> (#[trigger] outcomes@[k]) == outcome_for(stage_pairs(boards@, world_ranks@, n_drivers as int, k), d as int),
            decreases n_stages - t,
        {
            outcomes.push(find_outcome(&pairs[t], d));
            t = t + 1;
        }
        driver_results.push(DriverResult { name: user_names[d].clone(), stages: outcomes });
        d = d + 1;
    }

    let mut stage_results: Vec<Vec<(String, StageResult)>> = Vec::new();
    let mut s: usize = 0;
    while s < n_stages
        invariant
            n_stages == stages@.len(),
            forall|k: int| 0 <= k < driver_results@.len() ==> (#[trigger] driver_results@[k]).stages@.len() == n_stages,
            s <= n_stages,
            stage_results@.len() == s,
            forall|k: int|
                0 <= k < s ==> (#[trigger] stage_results@[k])@ == sort_by(
                    stage_list(driver_results@, k),
                    |a: (String, StageResult), b: (String, StageResult)| time_le(a, b),
                ),
        decreases n_stages - s,
    {
        stage_results.push(fastest_first(&driver_results, s));
        s = s + 1;
    }
    RallyResults { stages, driver_results, stage_results }
}

/// The drivers with an outcome on stage `s`, fastest first, ties in driver order.
fn fastest_first(ds: &Vec<DriverResult>, s: usize) -> (r: Vec<(String, StageResult)>)
    requires
        forall|k: int| 0 <= k < ds@.len() ==> s < (#[trigger] ds@[k]).stages@.len(),
    ensures
        r@ == sort_by(stage_list(ds@, s as int), |a: (String, StageResult), b: (String, StageResult)| time_le(a, b)),
{
    let ghost le = |a: (String, StageResult), b: (String, StageResult)| time_le(a, b);
    let mut out: Vec<(String, StageResult)> = Vec::new();
    let mut d: usize = 0;
    while d < ds.len()
        invariant
            forall|k: int| 0 <= k < ds@.len() ==> s < (#[trigger] ds@[k]).stages@.len(),
            le == (|a: (String, StageResult), b: (String, StageResult)| time_le(a, b)),
            d <= ds@.len(),
            out@ == sort_by(stage_list(ds@.take(d as int), s as int), le),
        decreases ds@.len() - d,
    {
        assert(ds@.take(d + 1).drop_last() =~= ds@.take(d as int));
        assert(ds@.take(d + 1).last() == ds@[d as int]);
        if let Some(res) = ds[d].stages[s] {
            let x = (ds[d].name.clone(), res);
            let mut j: usize = 0;
            while j < out.len() && out[j].1.time_ms <= res.time_ms
                invariant
                    j <= out@.len(),
                    le == (|a: (String, StageResult), b: (String, StageResult)| time_le(a, b)),
                    x.1 == res,
                    forall|k: int| 0 <= k < j ==> #[trigger] le(out@[k], x),
                decreases out@.len() - j,
            {
                j = j + 1;
            }
            proof {
                lemma_insert_at(out@, x, le, j as int);
                let prev = stage_list(ds@.take(d as int), s as int);
                assert(stage_list(ds@.take(d + 1), s as int) == prev.push(x));
                assert(prev.push(x).drop_last() =~= prev);
            }
            out.insert(j, x);
        }
        d = d + 1;
    }
    assert(ds@.take(ds@.len() as int) =~= ds@);
    out
}

/// A friends leaderboard whose rows come ranked 1, 2, 3, ... in response order keeps that
/// order when sorted by local rank, and its resolved outcomes carry the local ranks 1, 2,
/// 3, ... in that order, one for each row that a ranked driver could take.
pub proof fn lemma_ranked_rows_keep_order(rows: Seq<LeaderboardRow>, ranks: Seq<Option<usize>>)
    requires
        forall|i: int| 0 <= i < rows.len() ==> (#[trigger] rows[i]).local_rank == i + 1,
    ensures
        sort_by(rows, |a: LeaderboardRow, b: LeaderboardRow| row_le(a, b)) == rows,
        resolved(rows, ranks).len() == if rows.len() < ranked_drivers(ranks).len() {
            rows.len()
        } else {
            ranked_drivers(ranks).len()
        },
        forall|i: int| 0 <= i < resolved(rows, ranks).len() ==> (#[trigger] resolved(rows, ranks)[i]).1.local_rank == i + 1,
{
    let le = |a: LeaderboardRow, b: LeaderboardRow| row_le(a, b);
    assert(is_sorted_by(rows, le));
    lemma_sort_of_sorted(rows, le);
    let wle = |a: (usize, usize), b: (usize, usize)| world_le(a, b);
    assert(is_total_preorder(wle));
    lemma_sort_sorted(ranked_drivers(ranks), wle);
}

/// Whatever the order of the response, a stage's resolved outcomes come best first: by
/// local rank and, in step, by world rank.
pub proof fn lemma_resolved_in_rank_order(rows: Seq<LeaderboardRow>, ranks: Seq<Option<usize>>)
    ensures
        forall|i: int, j: int|
            0 <= i < j < resolved(rows, ranks).len() ==> (#[trigger] resolved(rows, ranks)[i]).1.local_rank
                <= (#[trigger] resolved(rows, ranks)[j]).1.local_rank && resolved(rows, ranks)[i].1.world_rank->Some_0
                <= resolved(rows, ranks)[j].1.world_rank->Some_0,
{
    let le = |a: LeaderboardRow, b: LeaderboardRow| row_le(a, b);
    let wle = |a: (usize, usize), b: (usize, usize)| world_le(a, b);
    assert(is_total_preorder(le));
    assert(is_total_preorder(wle));
    lemma_sort_sorted(rows, le);
    lemma_sort_sorted(ranked_drivers(ranks), wle);
    let e = sort_by(rows, le);
    let w = sort_by(ranked_drivers(ranks), wle);
    assert forall|i: int, j: int| 0 <= i < j < resolved(rows, ranks).len() implies (#[trigger] resolved(rows, ranks)[i]).1.local_rank
        <= (#[trigger] resolved(rows, ranks)[j]).1.local_rank && resolved(rows, ranks)[i].1.world_rank->Some_0
        <= resolved(rows, ranks)[j].1.world_rank->Some_0 by {
        assert(le(e[i], e[j]));
        assert(wle(w[i], w[j]));
    }
}

proof fn lemma_rank_at_least(e: Seq<LeaderboardRow>, i: int)
    requires
        0 <= i < e.len(),
        forall|k: int| 0 <= k < e.len() ==> 1 <= (#[trigger] e[k]).local_rank,
        forall|a: int, b: int| 0 <= a < b < e.len() ==> (#[trigger] e[a]).local_rank < (#[trigger] e[b]).local_rank,
    ensures
        e[i].local_rank >= i + 1,
    decreases i,
{
    if i > 0 {
        lemma_rank_at_least(e, i - 1);
        assert(e[i - 1].local_rank < e[i].local_rank);
    }
}

proof fn lemma_rank_at_most(e: Seq<LeaderboardRow>, i: int)
    requires
        0 <= i < e.len(),
        forall|k: int| 0 <= k < e.len() ==> (#[trigger] e[k]).local_rank <= e.len(),
        forall|a: int, b: int| 0 <= a < b < e.len() ==> (#[trigger] e[a]).local_rank < (#[trigger] e[b]).local_rank,
    ensures
        e[i].local_rank <= i + 1,
    decreases e.len() - i,
{
    if i < e.len() - 1 {
        lemma_rank_at_most(e, i + 1);
        assert(e[i].local_rank < e[i + 1].local_rank);
    }
}

/// When the local ranks of a stage's rows are a permutation of 1..N, in whatever order
/// they arrive, the resolved outcomes carry the local ranks 1, 2, 3, ... in order.
pub proof fn lemma_permuted_ranks_resolve_in_order(rows: Seq<LeaderboardRow>, ranks: Seq<Option<usize>>)
    requires
        forall|i: int| 0 <= i < rows.len() ==> 1 <= (#[trigger] rows[i]).local_rank <= rows.len(),
        forall|i: int, j: int| 0 <= i < j < rows.len() ==> (#[trigger] rows[i]).local_rank != (#[trigger] rows[j]).local_rank,
    ensures
        forall|i: int| 0 <= i < resolved(rows, ranks).len() ==> (#[trigger] resolved(rows, ranks)[i]).1.local_rank == i + 1,
{
    let le = |a: LeaderboardRow, b: LeaderboardRow| row_le(a, b);
    assert(is_total_preorder(le));
    lemma_sort_sorted(rows, le);
    lemma_sort_permutes(rows, le);
    let e = sort_by(rows, le);
    let n = rows.len();
    assert(rows.no_duplicates()) by {
        assert forall|i: int, j: int| 0 <= i < rows.len() && 0 <= j < rows.len() && i != j implies rows[i] != rows[j] by {
            if i < j {
                assert(rows[i].local_rank != rows[j].local_rank);
            } else {
                assert(rows[j].local_rank != rows[i].local_rank);
            }
        }
    }
    rows.lemma_multiset_has_no_duplicates();
    e.lemma_multiset_has_no_duplicates_conv();
    assert forall|k: int| 0 <= k < n implies rows.contains(#[trigger] e[k]) by {
        vstd::seq_lib::to_multiset_contains(e, e[k]);
        vstd::seq_lib::to_multiset_contains(rows, e[k]);
        assert(e.contains(e[k]));
    }
    assert forall|k: int| 0 <= k < n implies 1 <= (#[trigger] e[k]).local_rank <= n by {
        assert(rows.contains(e[k]));
    }
    assert forall|a: int, b: int| 0 <= a < b < n implies (#[trigger] e[a]).local_rank < (#[trigger] e[b]).local_rank by {
        assert(le(e[a], e[b]));
        assert(e[a] != e[b]);
        assert(rows.contains(e[a]));
        assert(rows.contains(e[b]));
        let p = choose|p: int| 0 <= p < rows.len() && rows[p] == e[a];
        let q = choose|q: int| 0 <= q < rows.len() && rows[q] == e[b];
        if p < q {
            assert(rows[p].local_rank != rows[q].local_rank);
        } else if q < p {
            assert(rows[q].local_rank != rows[p].local_rank);
        }
    }
    assert forall|i: int| 0 <= i < resolved(rows, ranks).len() implies (#[trigger] resolved(rows, ranks)[i]).1.local_rank == i + 1 by {
        lemma_rank_at_least(e, i);
        lemma_rank_at_most(e, i);
    }
}

} // verus!
