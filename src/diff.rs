//! Change detection: compares a scope's current standings with those of the previous
//! snapshot and describes each driver's change.
use vstd::prelude::*;
use crate::order::{lemma_insert_at, sort_by};

verus! {

/// One driver's place in a scope (a stage, or a rally overall).
#[derive(Debug)]
pub struct Standing {
    pub name: String,
    pub time: usize,
    pub rank: usize,
}

pub struct StandingView {
    pub name: Seq<char>,
    pub time: usize,
    pub rank: usize,
}

impl View for Standing {
    type V = StandingView;

    open spec fn view(&self) -> StandingView {
        StandingView { name: self.name@, time: self.time, rank: self.rank }
    }
}

pub open spec fn standing_views(s: Seq<Standing>) -> Seq<StandingView> {
    s.map_values(|x: Standing| x@)
}

/// A change event: how a driver's standing in a scope moved since the previous snapshot.
#[derive(Debug)]
pub enum Row {
    /// No previous standing.
    NewEntrant { rank: usize, name: String, time: usize },
    /// Faster and ranked better; `passed` are the drivers overtaken.
    ImprovedTimeRankUp { rank: usize, name: String, time: usize, prev: usize, passed: Vec<String> },
    /// Faster, same rank.
    ImprovedTimeRankSame { rank: usize, name: String, time: usize, prev: usize },
    /// Faster, yet ranked worse.
    ImprovedTimeRankDown { rank: usize, name: String, time: usize, prev: usize },
    /// Not faster and ranked worse.
    RankDown { rank: usize, name: String, time: usize },
    /// Nothing to tell; shown (`active`) only just above a row that changed.
    Unchanged { active: bool, rank: usize, name: String, time: usize },
}

pub enum RowView {
    NewEntrant { rank: usize, name: Seq<char>, time: usize },
    ImprovedTimeRankUp { rank: usize, name: Seq<char>, time: usize, prev: usize, passed: Seq<Seq<char>> },
    ImprovedTimeRankSame { rank: usize, name: Seq<char>, time: usize, prev: usize },
    ImprovedTimeRankDown { rank: usize, name: Seq<char>, time: usize, prev: usize },
    RankDown { rank: usize, name: Seq<char>, time: usize },
    Unchanged { active: bool, rank: usize, name: Seq<char>, time: usize },
}

pub open spec fn names_of(s: Seq<String>) -> Seq<Seq<char>> {
    s.map_values(|n: String| n@)
}

impl View for Row {
    type V = RowView;

    open spec fn view(&self) -> RowView {
        match self {
            Row::NewEntrant { rank, name, time } => RowView::NewEntrant { rank: *rank, name: name@, time: *time },
            Row::ImprovedTimeRankUp { rank, name, time, prev, passed } => RowView::ImprovedTimeRankUp {
                rank: *rank,
                name: name@,
                time: *time,
                prev: *prev,
                passed: names_of(passed@),
            },
            Row::ImprovedTimeRankSame { rank, name, time, prev } => RowView::ImprovedTimeRankSame {
                rank: *rank,
                name: name@,
                time: *time,
                prev: *prev,
            },
            Row::ImprovedTimeRankDown { rank, name, time, prev } => RowView::ImprovedTimeRankDown {
                rank: *rank,
                name: name@,
                time: *time,
                prev: *prev,
            },
            Row::RankDown { rank, name, time } => RowView::RankDown { rank: *rank, name: name@, time: *time },
            Row::Unchanged { active, rank, name, time } => RowView::Unchanged {
                active: *active,
                rank: *rank,
                name: name@,
                time: *time,
            },
        }
    }
}

pub open spec fn row_views(s: Seq<Row>) -> Seq<RowView> {
    s.map_values(|r: Row| r@)
}

impl RowView {
    pub open spec fn rank(self) -> usize {
        match self {
            RowView::NewEntrant { rank, .. } => rank,
            RowView::ImprovedTimeRankUp { rank, .. } => rank,
            RowView::ImprovedTimeRankSame { rank, .. } => rank,
            RowView::ImprovedTimeRankDown { rank, .. } => rank,
            RowView::RankDown { rank, .. } => rank,
            RowView::Unchanged { rank, .. } => rank,
        }
    }

    pub open spec fn name(self) -> Seq<char> {
        match self {
            RowView::NewEntrant { name, .. } => name,
            RowView::ImprovedTimeRankUp { name, .. } => name,
            RowView::ImprovedTimeRankSame { name, .. } => name,
            RowView::ImprovedTimeRankDown { name, .. } => name,
            RowView::RankDown { name, .. } => name,
            RowView::Unchanged { name, .. } => name,
        }
    }

    pub open spec fn is_unchanged(self) -> bool {
        self is Unchanged
    }

    /// The same row, with `active` set to `on` if it is an unchanged one.
    pub open spec fn with_active(self, on: bool) -> RowView {
        match self {
            RowView::Unchanged { rank, name, time, .. } => RowView::Unchanged { active: on, rank, name, time },
            other => other,
        }
    }
}

impl Row {
    pub fn rank(&self) -> (r: usize)
        ensures
            r == self@.rank(),
    {
        match self {
            Row::NewEntrant { rank, .. } => *rank,
            Row::ImprovedTimeRankUp { rank, .. } => *rank,
            Row::ImprovedTimeRankSame { rank, .. } => *rank,
            Row::ImprovedTimeRankDown { rank, .. } => *rank,
            Row::RankDown { rank, .. } => *rank,
            Row::Unchanged { rank, .. } => *rank,
        }
    }

    pub fn name(&self) -> (r: &str)
        ensures
            r@ == self@.name(),
    {
        match self {
            Row::NewEntrant { name, .. } => name.as_str(),
            Row::ImprovedTimeRankUp { name, .. } => name.as_str(),
            Row::ImprovedTimeRankSame { name, .. } => name.as_str(),
            Row::ImprovedTimeRankDown { name, .. } => name.as_str(),
            Row::RankDown { name, .. } => name.as_str(),
            Row::Unchanged { name, .. } => name.as_str(),
        }
    }

    pub fn is_unchanged(&self) -> (r: bool)
        ensures
            r == self@.is_unchanged(),
    {
        match self {
            Row::Unchanged { .. } => true,
            _ => false,
        }
    }

    /// Whether the row is reported: every change, and an unchanged row marked active.
    pub fn is_visible(&self) -> (r: bool)
        ensures
            r == match self@ {
                RowView::Unchanged { active, .. } => active,
                _ => true,
            },
    {
        match self {
            Row::Unchanged { active, .. } => *active,
            _ => true,
        }
    }
}

/// The previous `(time, rank)` of the first standing named `name`.
pub open spec fn prev_of(s: Seq<StandingView>, name: Seq<char>) -> Option<(usize, usize)>
    decreases s.len(),
{
    if s.len() == 0 {
        None
    } else if s[0].name == name {
        Some((s[0].time, s[0].rank))
    } else {
        prev_of(s.skip(1), name)
    }
}

/// The names, in scope order, of the first `n` standings other than `me` whose rank lies
/// in `[lo, hi)`.
pub open spec fn passed_among(cur: Seq<StandingView>, me: int, lo: int, hi: int, n: int) -> Seq<Seq<char>>
    decreases n,
{
    if n <= 0 {
        Seq::empty()
    } else {
        let before = passed_among(cur, me, lo, hi, n - 1);
        if n - 1 != me && lo <= cur[n - 1].rank < hi {
            before.push(cur[n - 1].name)
        } else {
            before
        }
    }
}

/// The event of a driver with current standing `cur` and previous `(time, rank)` `prev`;
/// `passed` goes with a better rank.
pub open spec fn change_of(cur: StandingView, prev: Option<(usize, usize)>, passed: Seq<Seq<char>>) -> RowView {
    let (rank, name, time) = (cur.rank, cur.name, cur.time);
    match prev {
        None => RowView::NewEntrant { rank, name, time },
        Some((pt, pr)) => if time < pt && rank < pr {
            RowView::ImprovedTimeRankUp { rank, name, time, prev: pt, passed }
        } else if time < pt && rank == pr {
            RowView::ImprovedTimeRankSame { rank, name, time, prev: pt }
        } else if time < pt && rank > pr {
            RowView::ImprovedTimeRankDown { rank, name, time, prev: pt }
        } else if rank > pr {
            RowView::RankDown { rank, name, time }
        } else {
            RowView::Unchanged { active: false, rank, name, time }
        },
    }
}

/// The drivers that standing `i` overtook: the others now ranked from its new rank up to,
/// not including, its previous one.
pub open spec fn passed_by(cur: Seq<StandingView>, i: int, prev: Option<(usize, usize)>) -> Seq<Seq<char>> {
    match prev {
        Some((_, pr)) => passed_among(cur, i, cur[i].rank as int, pr as int, cur.len() as int),
        None => Seq::empty(),
    }
}

/// Every current standing's event, in scope order.
pub open spec fn scope_changes(cur: Seq<StandingView>, prev: Seq<StandingView>) -> Seq<RowView> {
    Seq::new(
        cur.len(),
        |i: int| change_of(cur[i], prev_of(prev, cur[i].name), passed_by(cur, i, prev_of(prev, cur[i].name))),
    )
}

pub open spec fn rank_le(a: RowView, b: RowView) -> bool {
    a.rank() <= b.rank()
}

/// Each unchanged row made active exactly when the next row changed.
pub open spec fn activated(s: Seq<RowView>) -> Seq<RowView> {
    Seq::new(s.len(), |i: int| s[i].with_active(i + 1 < s.len() && !s[i + 1].is_unchanged()))
}

/// A scope's events: sorted by current rank, ties in scope order, with the unchanged rows
/// just above a change made active.
pub open spec fn scope_rows(cur: Seq<StandingView>, prev: Seq<StandingView>) -> Seq<RowView> {
    activated(sort_by(scope_changes(cur, prev), |a: RowView, b: RowView| rank_le(a, b)))
}

fn find_prev(prev: &Vec<Standing>, name: &String) -> (r: Option<(usize, usize)>)
    ensures
        r == prev_of(standing_views(prev@), name@),
{
    let ghost v = standing_views(prev@);
    let mut i: usize = 0;
    assert(v.skip(0) =~= v);
    while i < prev.len()
        invariant
            v == standing_views(prev@),
            i <= prev@.len(),
            prev_of(v, name@) == prev_of(v.skip(i as int), name@),
        decreases prev@.len() - i,
    {
        assert(v.skip(i as int)[0] == v[i as int]);
        assert(v.skip(i as int).skip(1) =~= v.skip(i + 1));
        if prev[i].name == *name {
            return Some((prev[i].time, prev[i].rank));
        }
        i = i + 1;
    }
    None
}

fn passed_list(cur: &Vec<Standing>, me: usize, lo: usize, hi: usize) -> (r: Vec<String>)
    ensures
        names_of(r@) == passed_among(standing_views(cur@), me as int, lo as int, hi as int, cur@.len() as int),
{
    let ghost v = standing_views(cur@);
    let mut out: Vec<String> = Vec::new();
    let mut n: usize = 0;
    while n < cur.len()
        invariant
            v == standing_views(cur@),
            n <= cur@.len(),
            names_of(out@) == passed_among(v, me as int, lo as int, hi as int, n as int),
        decreases cur@.len() - n,
    {
        if n != me && lo <= cur[n].rank && cur[n].rank < hi {
            let ghost before = out@;
            out.push(cur[n].name.clone());
            assert(names_of(out@) =~= names_of(before).push(cur@[n as int].name@));
        }
        n = n + 1;
    }
    out
}

fn change_row(cur: &Vec<Standing>, i: usize, prev: Option<(usize, usize)>) -> (r: Row)
    requires
        i < cur@.len(),
    ensures
        r@ == change_of(standing_views(cur@)[i as int], prev, passed_by(standing_views(cur@), i as int, prev)),
{
    let c = &cur[i];
    let (rank, time) = (c.rank, c.time);
    let name = c.name.clone();
    match prev {
        None => Row::NewEntrant { rank, name, time },
        Some((pt, pr)) => if time < pt && rank < pr {
            let passed = passed_list(cur, i, rank, pr);
            Row::ImprovedTimeRankUp { rank, name, time, prev: pt, passed }
        } else if time < pt && rank == pr {
            Row::ImprovedTimeRankSame { rank, name, time, prev: pt }
        } else if time < pt && rank > pr {
            Row::ImprovedTimeRankDown { rank, name, time, prev: pt }
        } else if rank > pr {
            Row::RankDown { rank, name, time }
        } else {
            Row::Unchanged { active: false, rank, name, time }
        },
    }
}

} // verus!

verus! {

fn with_active(x: Row, on: bool) -> (r: Row)
    ensures
        r@ == x@.with_active(on),
{
    match x {
        Row::Unchanged { rank, name, time, .. } => Row::Unchanged { active: on, rank, name, time },
        other => other,
    }
}

/// The events of one scope: each current standing compared with the previous standing of
/// the same driver (none if `prev` has no such driver), sorted by current rank with ties
/// in scope order, and each unchanged row made active exactly when the next row changed.
pub fn diff_scope(cur: &Vec<Standing>, prev: &Vec<Standing>) -> (r: Vec<Row>)
    ensures
        row_views(r@) == scope_rows(standing_views(cur@), standing_views(prev@)),
{
    let ghost changes = scope_changes(standing_views(cur@), standing_views(prev@));
    let ghost le = |a: RowView, b: RowView| rank_le(a, b);

    let mut rows: Vec<Row> = Vec::new();
    let mut i: usize = 0;
    while i < cur.len()
        invariant
            changes == scope_changes(standing_views(cur@), standing_views(prev@)),
            i <= cur@.len(),
            row_views(rows@) == changes.take(i as int),
        decreases cur@.len() - i,
    {
        let p = find_prev(prev, &cur[i].name);
        let row = change_row(cur, i, p);
        assert(standing_views(cur@)[i as int] == cur@[i as int]@);
        assert(row@ == changes[i as int]);
        let ghost before = rows@;
        rows.push(row);
        assert(row_views(rows@) =~= row_views(before).push(row@));
        assert(row_views(rows@) =~= changes.take(i + 1));
        i = i + 1;
    }
    assert(changes.take(cur@.len() as int) =~= changes);

    let mut sorted: Vec<Row> = Vec::new();
    let ghost mut k: int = 0;
    assert(changes.skip(0) =~= changes);
    while rows.len() > 0
        invariant
            le == (|a: RowView, b: RowView| rank_le(a, b)),
            0 <= k <= changes.len(),
            row_views(rows@) == changes.skip(k),
            row_views(sorted@) == sort_by(changes.take(k), le),
        decreases rows@.len(),
    {
        let ghost before_rows = rows@;
        assert(row_views(before_rows).len() == before_rows.len());
        assert(row_views(before_rows)[0] == before_rows[0]@);
        let x = rows.remove(0);
        assert(x@ == changes[k]);
        assert forall|t: int| 0 <= t < rows@.len() implies #[trigger] row_views(rows@)[t] == changes.skip(k + 1)[t] by {
            assert(rows@[t] == before_rows[t + 1]);
            assert(row_views(before_rows)[t + 1] == before_rows[t + 1]@);
        }
        assert(row_views(rows@) =~= changes.skip(k + 1));
        let mut j: usize = 0;
        while j < sorted.len() && sorted[j].rank() <= x.rank()
            invariant
                j <= sorted@.len(),
                le == (|a: RowView, b: RowView| rank_le(a, b)),
                forall|m: int| 0 <= m < j ==> #[trigger] le(sorted@[m]@, x@),
            decreases sorted@.len() - j,
        {
            j = j + 1;
        }
        proof {
            lemma_insert_at(row_views(sorted@), x@, le, j as int);
            assert(changes.take(k + 1).drop_last() =~= changes.take(k));
        }
        let ghost before = sorted@;
        sorted.insert(j, x);
        assert(row_views(sorted@) =~= row_views(before).insert(j as int, x@));
        proof {
            k = k + 1;
        }
    }
    assert(changes.take(k) =~= changes);

    let ghost s = sort_by(changes, le);
    let mut out: Vec<Row> = Vec::new();
    let ghost mut m: int = 0;
    assert(s.skip(0) =~= s);
    while sorted.len() > 0
        invariant
            0 <= m <= s.len(),
            row_views(sorted@) == s.skip(m),
            row_views(out@) == activated(s).take(m),
        decreases sorted@.len(),
    {
        let ghost before_sorted = sorted@;
        assert(row_views(before_sorted).len() == before_sorted.len());
        assert(row_views(before_sorted)[0] == before_sorted[0]@);
        let x = sorted.remove(0);
        assert(x@ == s[m]);
        assert forall|t: int| 0 <= t < sorted@.len() implies #[trigger] row_views(sorted@)[t] == s.skip(m + 1)[t] by {
            assert(sorted@[t] == before_sorted[t + 1]);
            assert(row_views(before_sorted)[t + 1] == before_sorted[t + 1]@);
        }
        assert(row_views(sorted@) =~= s.skip(m + 1));
        assert(sorted@.len() > 0 ==> row_views(sorted@)[0] == sorted@[0]@);
        let next_changed = sorted.len() > 0 && !sorted[0].is_unchanged();
        assert(next_changed == (m + 1 < s.len() && !s[m + 1].is_unchanged()));
        let ghost before = out@;
        let y = with_active(x, next_changed);
        assert(y@ == activated(s)[m]);
        out.push(y);
        assert(row_views(out@) =~= row_views(before).push(y@));
        assert(row_views(out@) =~= activated(s).take(m + 1));
        proof {
            m = m + 1;
        }
    }
    assert(activated(s).take(m) =~= activated(s));
    out
}

} // verus!
