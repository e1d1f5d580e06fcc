//! The text of a change notification: the visible rows of every rally and stage that
//! changed, one line each.
use vstd::prelude::*;
use crate::diff::{row_views, Row, RowView};
use crate::model::{Conditions, Heading, Location, StageWithLeaderboard};
use crate::snapshot::{RallyChanges, Snapshot};
use crate::text::{decimal, push_decimal, push_repeated, repeat_char, time_text, format_time};

verus! {

/// The start of a row's line: indent, mark, rank, and the name padded to `width`.
pub open spec fn line_head(indent: int, mark: Seq<char>, rank: usize, name: Seq<char>, width: int) -> Seq<char> {
    repeat_char(' ', indent) + mark + seq![' '] + decimal(rank as nat) + seq!['.', ' ', ' '] + name + repeat_char(
        ' ',
        width - name.len(),
    ) + seq![' ', ' ']
}

/// The change of time: `-` and the gain when faster, else `+` and the loss.
pub open spec fn gap_text(time: usize, prev: usize) -> Seq<char> {
    if time <= prev {
        seq![' ', ' ', '-'] + time_text((prev - time) as nat, false)
    } else {
        seq![' ', ' ', '+'] + time_text((time - prev) as nat, false)
    }
}

/// A row's line, if the row is shown.
pub open spec fn row_line(r: RowView, indent: int, width: int) -> Option<Seq<char>> {
    match r {
        RowView::NewEntrant { rank, name, time } => Some(
            line_head(indent, seq!['>'], rank, name, width) + time_text(time as nat, false),
        ),
        RowView::ImprovedTimeRankUp { rank, name, time, prev, .. } => Some(
            line_head(indent, seq!['^'], rank, name, width) + time_text(time as nat, false) + gap_text(time, prev),
        ),
        RowView::ImprovedTimeRankSame { rank, name, time, prev } => Some(
            line_head(indent, seq!['~'], rank, name, width) + time_text(time as nat, false) + gap_text(time, prev),
        ),
        RowView::ImprovedTimeRankDown { rank, name, time, prev } => Some(
            line_head(indent, seq!['v'], rank, name, width) + time_text(time as nat, false) + gap_text(time, prev),
        ),
        RowView::RankDown { rank, name, time } => Some(
            line_head(indent, seq!['v'], rank, name, width) + time_text(time as nat, false),
        ),
        RowView::Unchanged { active, rank, name, time } => if active {
            Some(line_head(indent, seq![' '], rank, name, width) + time_text(time as nat, false))
        } else {
            None
        },
    }
}

fn line_head_of(indent: usize, mark: &str, rank: usize, name: &String, width: usize) -> (r: String)
    ensures
        r@ == line_head(indent as int, mark@, rank, name@, width as int),
{
    let mut s = String::new();
    proof {
        reveal_strlit(" ");
        reveal_strlit(".  ");
        reveal_strlit("  ");
    }
    push_repeated(&mut s, " ", indent);
    s.append(mark);
    s.append(" ");
    push_decimal(&mut s, rank);
    s.append(".  ");
    s.append(name.as_str());
    let len = name.as_str().unicode_len();
    push_repeated(&mut s, " ", if width > len { width - len } else { 0 });
    s.append("  ");
    assert(repeat_char(' ', (if width > len { width - len } else { 0 }) as int) =~= repeat_char(' ', width - name@.len()));
    assert(s@ =~= line_head(indent as int, mark@, rank, name@, width as int));
    s
}

fn gap_of(time: usize, prev: usize) -> (r: String)
    ensures
        r@ == gap_text(time, prev),
{
    proof {
        reveal_strlit("  -");
        reveal_strlit("  +");
    }
    let (mut s, gap) = if time <= prev {
        (String::from_str("  -"), prev - time)
    } else {
        (String::from_str("  +"), time - prev)
    };
    let t = format_time(gap, false);
    s.append(t.as_str());
    s
}

impl Row {
    /// The row's line in a notification, indented by `indent` with names padded to
    /// `name_width`; `None` for an unchanged row that is not shown.
    pub fn message(&self, indent: usize, name_width: usize) -> (r: Option<String>)
        ensures
            match r {
                Some(s) => row_line(self@, indent as int, name_width as int) == Some(s@),
                None => row_line(self@, indent as int, name_width as int) is None,
            },
    {
        proof {
            reveal_strlit(">");
            reveal_strlit("^");
            reveal_strlit("~");
            reveal_strlit("v");
            reveal_strlit(" ");
        }
        let (mut s, time) = match self {
            Row::NewEntrant { rank, name, time } => (line_head_of(indent, ">", *rank, name, name_width), *time),
            Row::ImprovedTimeRankUp { rank, name, time, .. } => (line_head_of(indent, "^", *rank, name, name_width), *time),
            Row::ImprovedTimeRankSame { rank, name, time, .. } => (line_head_of(indent, "~", *rank, name, name_width), *time),
            Row::ImprovedTimeRankDown { rank, name, time, .. } => (line_head_of(indent, "v", *rank, name, name_width), *time),
            Row::RankDown { rank, name, time } => (line_head_of(indent, "v", *rank, name, name_width), *time),
            Row::Unchanged { active, rank, name, time } => {
                if !*active {
                    return None;
                }
                (line_head_of(indent, " ", *rank, name, name_width), *time)
            },
        };
        let t = format_time(time, false);
        s.append(t.as_str());
        match self {
            Row::ImprovedTimeRankUp { time, prev, .. } => {
                let g = gap_of(*time, *prev);
                s.append(g.as_str());
            },
            Row::ImprovedTimeRankSame { time, prev, .. } => {
                let g = gap_of(*time, *prev);
                s.append(g.as_str());
            },
            Row::ImprovedTimeRankDown { time, prev, .. } => {
                let g = gap_of(*time, *prev);
                s.append(g.as_str());
            },
            _ => {},
        }
        Some(s)
    }
}

pub open spec fn location_name(a: Location) -> Seq<char> {
    match a {
        Location::Finland => "finland"@,
        Location::Sardinia => "sardinia"@,
        Location::Japan => "japan"@,
        Location::Norway => "norway"@,
        Location::Germany => "germany"@,
        Location::Kenya => "kenya"@,
    }
}

pub open spec fn heading_name(h: Heading) -> Seq<char> {
    match h {
        Heading::Forward => "forward"@,
        Heading::Backward => "backward"@,
    }
}

pub open spec fn conditions_name(c: Conditions) -> Seq<char> {
    match c {
        Conditions::Dry => "dry"@,
        Conditions::Wet => "wet"@,
    }
}

/// `area number direction weather`, e.g. `kenya 3 forward dry`.
pub open spec fn label_of(stage: StageWithLeaderboard) -> Seq<char> {
    location_name(stage.0.area) + seq![' '] + decimal(stage.0.stage_number as nat) + seq![' '] + heading_name(
        stage.0.direction,
    ) + seq![' '] + conditions_name(stage.2)
}

/// A stage's name in notifications and page names.
pub fn stage_label(stage: &StageWithLeaderboard) -> (r: String)
    ensures
        r@ == label_of(*stage),
{
    let area = match stage.0.area {
        Location::Finland => "finland",
        Location::Sardinia => "sardinia",
        Location::Japan => "japan",
        Location::Norway => "norway",
        Location::Germany => "germany",
        Location::Kenya => "kenya",
    };
    let heading = match stage.0.direction {
        Heading::Forward => "forward",
        Heading::Backward => "backward",
    };
    let conditions = match stage.2 {
        Conditions::Dry => "dry",
        Conditions::Wet => "wet",
    };
    proof {
        reveal_strlit(" ");
    }
    let mut s = String::from_str(area);
    s.append(" ");
    push_decimal(&mut s, stage.0.stage_number);
    s.append(" ");
    s.append(heading);
    s.append(" ");
    s.append(conditions);
    s
}

/// The lines of the shown rows, each ending in a newline.
pub open spec fn visible_lines(rows: Seq<RowView>, indent: int, width: int) -> Seq<char>
    decreases rows.len(),
{
    if rows.len() == 0 {
        Seq::empty()
    } else {
        visible_lines(rows.drop_last(), indent, width) + match row_line(rows.last(), indent, width) {
            Some(l) => l + seq!['\n'],
            None => Seq::empty(),
        }
    }
}

/// The longest name among the rows.
pub open spec fn widest(rows: Seq<RowView>) -> int
    decreases rows.len(),
{
    if rows.len() == 0 {
        0
    } else {
        let w = widest(rows.drop_last());
        if rows.last().name().len() > w {
            rows.last().name().len() as int
        } else {
            w
        }
    }
}

pub open spec fn all_unchanged(rows: Seq<RowView>) -> bool {
    forall|i: int| 0 <= i < rows.len() ==> (#[trigger] rows[i]).is_unchanged()
}

/// A stage's part: its label and its lines, or nothing if nothing changed there.
pub open spec fn stage_text(label: Seq<char>, rows: Seq<RowView>) -> Seq<char> {
    if all_unchanged(rows) {
        Seq::empty()
    } else {
        seq![' ', ' '] + label + seq!['\n'] + visible_lines(rows, 4, widest(rows))
    }
}

pub open spec fn stages_text(labels: Seq<Seq<char>>, stages: Seq<Seq<RowView>>) -> Seq<char>
    decreases stages.len(),
{
    if stages.len() == 0 {
        Seq::empty()
    } else {
        stages_text(labels, stages.drop_last()) + stage_text(labels[stages.len() - 1], stages.last())
    }
}

/// Nothing changed in the rally, overall or on any stage.
pub open spec fn rally_quiet(overall: Seq<RowView>, stages: Seq<Seq<RowView>>) -> bool {
    all_unchanged(overall) && forall|s: int| 0 <= s < stages.len() ==> all_unchanged(#[trigger] stages[s])
}

/// A rally's part: title, overall lines and stage parts, or nothing if it is quiet.
pub open spec fn rally_text(title: Seq<char>, overall: Seq<RowView>, labels: Seq<Seq<char>>, stages: Seq<Seq<RowView>>) -> Seq<char> {
    if rally_quiet(overall, stages) {
        Seq::empty()
    } else {
        seq!['\n'] + title + seq!['\n'] + visible_lines(overall, 2, widest(overall)) + stages_text(labels, stages)
    }
}

pub open spec fn stage_row_views(stages: Seq<Vec<Row>>) -> Seq<Seq<RowView>> {
    stages.map_values(|v: Vec<Row>| row_views(v@))
}

pub open spec fn labels_of(stages: Seq<StageWithLeaderboard>) -> Seq<Seq<char>> {
    stages.map_values(|s: StageWithLeaderboard| label_of(s))
}

/// The part of rally `k`.
pub open spec fn rally_text_at(changes: Seq<RallyChanges>, cur: Snapshot, k: int) -> Seq<char> {
    rally_text(
        changes[k].title@,
        row_views(changes[k].overall@),
        labels_of(cur.results@[k].stages@),
        stage_row_views(changes[k].stages@),
    )
}

pub open spec fn rallies_text(changes: Seq<RallyChanges>, cur: Snapshot, n: int) -> Seq<char>
    decreases n,
{
    if n <= 0 {
        Seq::empty()
    } else {
        rallies_text(changes, cur, n - 1) + rally_text_at(changes, cur, n - 1)
    }
}

pub open spec fn all_quiet(changes: Seq<RallyChanges>) -> bool {
    forall|k: int|
        0 <= k < changes.len() ==> rally_quiet(
            row_views((#[trigger] changes[k]).overall@),
            stage_row_views(changes[k].stages@),
        )
}

fn push_lines(s: &mut String, rows: &Vec<Row>, indent: usize, width: usize)
    ensures
        final(s)@ == old(s)@ + visible_lines(row_views(rows@), indent as int, width as int),
{
    let ghost v = row_views(rows@);
    let mut i: usize = 0;
    proof {
        reveal_strlit("\n");
    }
    while i < rows.len()
        invariant
            v == row_views(rows@),
            i <= rows@.len(),
            s@ == old(s)@ + visible_lines(v.take(i as int), indent as int, width as int),
        decreases rows@.len() - i,
    {
        assert(v.take(i + 1).drop_last() =~= v.take(i as int));
        assert(v.take(i + 1).last() == rows@[i as int]@);
        proof {
            reveal_strlit("\n");
        }
        let ghost before = s@;
        let ghost add = match row_line(v[i as int], indent as int, width as int) {
            Some(l) => l + seq!['\n'],
            None => Seq::empty(),
        };
        assert(visible_lines(v.take(i + 1), indent as int, width as int) == visible_lines(v.take(i as int), indent as int, width as int) + add);
        if let Some(line) = rows[i].message(indent, width) {
            s.append(line.as_str());
            s.append("\n");
            assert(s@ =~= before + add);
        } else {
            assert(s@ =~= before + add);
        }
        assert(s@ =~= old(s)@ + visible_lines(v.take(i + 1), indent as int, width as int));
        i = i + 1;
    }
    assert(v.take(rows@.len() as int) =~= v);
}

fn widest_of(rows: &Vec<Row>) -> (r: usize)
    ensures
        r as int == widest(row_views(rows@)),
{
    let ghost v = row_views(rows@);
    let mut w: usize = 0;
    let mut i: usize = 0;
    while i < rows.len()
        invariant
            v == row_views(rows@),
            i <= rows@.len(),
            w as int == widest(v.take(i as int)),
        decreases rows@.len() - i,
    {
        assert(v.take(i + 1).drop_last() =~= v.take(i as int));
        assert(v.take(i + 1).last() == rows@[i as int]@);
        let len = rows[i].name().unicode_len();
        if len > w {
            w = len;
        }
        i = i + 1;
    }
    assert(v.take(rows@.len() as int) =~= v);
    w
}

fn unchanged_only(rows: &Vec<Row>) -> (r: bool)
    ensures
        r == all_unchanged(row_views(rows@)),
{
    let mut i: usize = 0;
    while i < rows.len()
        invariant
            i <= rows@.len(),
            forall|k: int| 0 <= k < i ==> (#[trigger] row_views(rows@)[k]).is_unchanged(),
        decreases rows@.len() - i,
    {
        assert(row_views(rows@)[i as int] == rows@[i as int]@);
        if !rows[i].is_unchanged() {
            return false;
        }
        i = i + 1;
    }
    true
}

fn quiet(c: &RallyChanges) -> (r: bool)
    ensures
        r == rally_quiet(row_views(c.overall@), stage_row_views(c.stages@)),
{
    if !unchanged_only(&c.overall) {
        return false;
    }
    let mut s: usize = 0;
    while s < c.stages.len()
        invariant
            s <= c.stages@.len(),
            all_unchanged(row_views(c.overall@)),
            forall|t: int| 0 <= t < s ==> all_unchanged(#[trigger] stage_row_views(c.stages@)[t]),
        decreases c.stages@.len() - s,
    {
        assert(stage_row_views(c.stages@)[s as int] == row_views(c.stages@[s as int]@));
        if !unchanged_only(&c.stages[s]) {
            return false;
        }
        s = s + 1;
    }
    true
}

fn push_rally(s: &mut String, c: &RallyChanges, stages: &Vec<StageWithLeaderboard>)
    requires
        c.stages@.len() == stages@.len(),
    ensures
        final(s)@ == old(s)@ + rally_text(c.title@, row_views(c.overall@), labels_of(stages@), stage_row_views(c.stages@)),
{
    if quiet(c) {
        return;
    }
    proof {
        reveal_strlit("\n");
        reveal_strlit("  ");
    }
    s.append("\n");
    s.append(c.title.as_str());
    s.append("\n");
    let width = widest_of(&c.overall);
    push_lines(s, &c.overall, 2, width);
    let ghost mid = s@;
    let ghost labels = labels_of(stages@);
    let ghost views = stage_row_views(c.stages@);
    let mut t: usize = 0;
    while t < c.stages.len()
        invariant
            c.stages@.len() == stages@.len(),
            labels == labels_of(stages@),
            views == stage_row_views(c.stages@),
            t <= c.stages@.len(),
            s@ == mid + stages_text(labels, views.take(t as int)),
        decreases c.stages@.len() - t,
    {
        assert(views.take(t + 1).drop_last() =~= views.take(t as int));
        assert(views[t as int] == row_views(c.stages@[t as int]@));
        let rows = &c.stages[t];
        proof {
            reveal_strlit("\n");
            reveal_strlit("  ");
        }
        let ghost before = s@;
        assert(labels[t as int] == label_of(stages@[t as int]));
        assert(stages_text(labels, views.take(t + 1)) == stages_text(labels, views.take(t as int)) + stage_text(labels[t as int], views[t as int]));
        if !unchanged_only(rows) {
            let label = stage_label(&stages[t]);
            s.append("  ");
            s.append(label.as_str());
            s.append("\n");
            let w = widest_of(rows);
            push_lines(s, rows, 4, w);
            assert(s@ =~= before + stage_text(labels[t as int], views[t as int]));
        } else {
            assert(s@ =~= before + stage_text(labels[t as int], views[t as int]));
        }
        assert(s@ =~= mid + stages_text(labels, views.take(t + 1)));
        t = t + 1;
    }
    assert(views.take(c.stages@.len() as int) =~= views);
    assert(s@ =~= old(s)@ + rally_text(c.title@, row_views(c.overall@), labels_of(stages@), stage_row_views(c.stages@)));
}

/// The notification for a report: `None` when nothing changed anywhere, else the parts of
/// every rally that changed between two lines of three backticks.
pub fn notification_text(changes: &Vec<RallyChanges>, cur: &Snapshot) -> (r: Option<String>)
    requires
        changes@.len() == cur.results@.len(),
        forall|k: int| 0 <= k < changes@.len() ==> (#[trigger] changes@[k]).stages@.len() == cur.results@[k].stages@.len(),
    ensures
        match r {
            Some(s) => !all_quiet(changes@) && s@ == "```"@ + rallies_text(changes@, *cur, changes@.len() as int) + "```"@,
            None => all_quiet(changes@),
        },
{
    let mut k: usize = 0;
    let mut any = false;
    while k < changes.len()
        invariant
            k <= changes@.len(),
            any == !(forall|j: int|
                0 <= j < k ==> rally_quiet(row_views((#[trigger] changes@[j]).overall@), stage_row_views(changes@[j].stages@))),
        decreases changes@.len() - k,
    {
        if !quiet(&changes[k]) {
            any = true;
        }
        k = k + 1;
    }
    if !any {
        return None;
    }
    let mut s = String::from_str("```");
    let ghost start = s@;
    let mut k: usize = 0;
    while k < changes.len()
        invariant
            changes@.len() == cur.results@.len(),
            forall|j: int| 0 <= j < changes@.len() ==> (#[trigger] changes@[j]).stages@.len() == cur.results@[j].stages@.len(),
            k <= changes@.len(),
            s@ == start + rallies_text(changes@, *cur, k as int),
        decreases changes@.len() - k,
    {
        push_rally(&mut s, &changes[k], &cur.results[k].stages);
        k = k + 1;
    }
    s.append("```");
    Some(s)
}

} // verus!
