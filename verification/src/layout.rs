//! The column builder: from window positions to a grid of columns and rows.

use crate::model::Client;
use crate::sort::{
    is_sorted, lemma_sort_permutes, lemma_sort_sorted, no_later, sort_clients, stable_sort, SortKey,
};
use crate::text::{chars_of, parse_signed, signed_decimal, within};
use vstd::multiset::Multiset;
use vstd::prelude::*;

verus! {

/// The clustering tolerance in pixels that is used where none is configured.
pub const DEFAULT_EPSILON: i32 = 40;

/// One window of a column.
#[derive(Debug, Clone, PartialEq, Eq)]
pub struct ColumnRow {
    /// Position in the column, counted from the top, starting at 0.
    pub row: usize,
    /// The window's `y`.
    pub y: i32,
    /// The window itself.
    pub client: Client,
}

/// One column of the grid.
#[derive(Debug, Clone, PartialEq, Eq)]
pub struct Column {
    /// Position in the grid, counted from the left, starting at 0.
    pub col: usize,
    /// The `x` of the window that opened the column.
    pub x: i32,
    /// The windows of the column, top to bottom.
    pub rows: Vec<ColumnRow>,
}

/// Mathematical content of a [`ColumnRow`].
pub ghost struct RowView {
    pub row: int,
    pub y: int,
    pub client: Client,
}

/// Mathematical content of a [`Column`].
pub ghost struct ColumnView {
    pub col: int,
    pub x: int,
    pub rows: Seq<RowView>,
}

impl View for ColumnRow {
    type V = RowView;

    open spec fn view(&self) -> RowView {
        RowView { row: self.row as int, y: self.y as int, client: self.client }
    }
}

impl DeepView for ColumnRow {
    type V = RowView;

    open spec fn deep_view(&self) -> RowView {
        self@
    }
}

impl View for Column {
    type V = ColumnView;

    open spec fn view(&self) -> ColumnView {
        ColumnView { col: self.col as int, x: self.x as int, rows: self.rows.deep_view() }
    }
}

impl DeepView for Column {
    type V = ColumnView;

    open spec fn deep_view(&self) -> ColumnView {
        self@
    }
}

/// Whether a window takes part in the layout of workspace `cur`.
pub open spec fn eligible(c: Client, cur: i64) -> bool {
    c.mapped && !c.hidden && c.workspace.id == cur
}

/// The windows of `all` that take part in the layout of workspace `cur`,
/// in the order they have in `all`.
pub open spec fn eligible_windows(all: Seq<Client>, cur: i64) -> Seq<Client> {
    all.filter(|c: Client| eligible(c, cur))
}

/// Keeps the windows that are mapped, not hidden and on workspace `cur`.
pub fn clients_on_current_workspace(cur: i64, all: Vec<Client>) -> (r: Vec<Client>)
    ensures
        r@ == eligible_windows(all@, cur),
{
    let mut out: Vec<Client> = Vec::new();
    let ghost pred = |c: Client| eligible(c, cur);
    proof {
        reveal(Seq::filter);
        assert(all@.take(0).filter(pred) == Seq::<Client>::empty());
    }
    for c in it: all
        invariant
            it.seq() == all@,
            pred == (|c: Client| eligible(c, cur)),
            out@ == all@.take(it.index()).filter(pred),
    {
        proof {
            reveal(Seq::filter);
            assert(all@.take(it.index() + 1).drop_last() == all@.take(it.index()));
        }
        if c.mapped && !c.hidden && c.workspace.id == cur {
            out.push(c);
        }
    }
    proof {
        assert(all@.take(all@.len() as int) == all@);
    }
    out
}

/// The tolerance that the setting `value` asks for: the number it writes,
/// or the default where it is missing or writes no number that fits 32 bits.
pub open spec fn epsilon_setting(value: Option<Seq<char>>) -> int {
    match value {
        Some(s) => match within(signed_decimal(s), i32::MIN as int, i32::MAX as int) {
            Some(v) => v,
            None => DEFAULT_EPSILON as int,
        },
        None => DEFAULT_EPSILON as int,
    }
}

/// Reads the clustering tolerance from the value of its configuration knob.
pub fn column_epsilon_from_env(value: Option<&str>) -> (eps: i32)
    ensures
        eps == epsilon_setting(
            match value {
                Some(s) => Some(s@),
                None => None,
            },
        ),
{
    match value {
        Some(s) => {
            let chars = chars_of(s);
            proof {
                assert(chars@.subrange(0, chars@.len() as int) == chars@);
            }
            match parse_signed(&chars, 0, chars.len()) {
                Some(v) => {
                    if -0x8000_0000i64 <= v && v <= 0x7fff_ffffi64 {
                        v as i32
                    } else {
                        DEFAULT_EPSILON
                    }
                },
                None => DEFAULT_EPSILON,
            }
        },
        None => DEFAULT_EPSILON,
    }
}

/// Whether a window at `x` joins a column whose first window is at `first`.
pub open spec fn joins(x: int, first: int, eps: int) -> bool {
    -eps <= x - first <= eps
}

/// The groups that a left-to-right scan of `s` forms: a window joins the
/// group before it where its `x` is within `eps` of the `x` of that
/// group's first window, and opens a new group otherwise.
pub open spec fn cluster(s: Seq<Client>, eps: int) -> Seq<Seq<Client>>
    decreases s.len(),
{
    if s.len() == 0 {
        Seq::empty()
    } else {
        let before = cluster(s.drop_last(), eps);
        let w = s.last();
        if before.len() > 0 && before.last().len() > 0 && joins(
            w.at.0 as int,
            before.last()[0].at.0 as int,
            eps,
        ) {
            before.drop_last().push(before.last().push(w))
        } else {
            before.push(seq![w])
        }
    }
}

/// The rows of a column whose windows are `members`, top to bottom.
pub open spec fn rows_of(members: Seq<Client>) -> Seq<RowView> {
    Seq::new(members.len(), |j: int| RowView { row: j, y: members[j].at.1 as int, client: members[j] })
}

/// Column number `i`, made of the windows `group` in the order of the scan.
pub open spec fn column_of(i: int, group: Seq<Client>) -> ColumnView {
    ColumnView { col: i, x: group[0].at.0 as int, rows: rows_of(stable_sort(group, SortKey::Y)) }
}

/// The grid for the windows `windows` and the tolerance `eps`: the windows
/// are scanned in ascending `(x, y)`, grouped into columns by [`cluster`],
/// and each column is ordered by ascending `y`.
pub open spec fn columns_of(windows: Seq<Client>, eps: int) -> Seq<ColumnView> {
    let groups = cluster(stable_sort(windows, SortKey::XThenY), eps);
    Seq::new(groups.len(), |i: int| column_of(i, groups[i]))
}

/// The views of a sequence of groups.
pub open spec fn group_views(groups: Seq<Vec<Client>>) -> Seq<Seq<Client>> {
    Seq::new(groups.len(), |i: int| groups[i]@)
}

/// The groups read so far: those that are closed and the one still open.
pub open spec fn groups_so_far(done: Seq<Vec<Client>>, open: Seq<Client>) -> Seq<Seq<Client>> {
    if open.len() == 0 {
        group_views(done)
    } else {
        group_views(done).push(open)
    }
}

/// Scans sorted windows into groups.
fn scan_groups(sorted: Vec<Client>, eps: i32) -> (r: Vec<Vec<Client>>)
    ensures
        group_views(r@) == cluster(sorted@, eps as int),
        forall|i: int| 0 <= i < r.len() ==> (#[trigger] r[i]).len() > 0,
{
    let mut done: Vec<Vec<Client>> = Vec::new();
    let mut open: Vec<Client> = Vec::new();
    let mut first: i32 = 0;
    proof {
        assert(group_views(done@) =~= Seq::<Seq<Client>>::empty());
    }
    for c in it: sorted
        invariant
            it.seq() == sorted@,
            groups_so_far(done@, open@) == cluster(sorted@.take(it.index()), eps as int),
            forall|i: int| 0 <= i < done.len() ==> (#[trigger] done[i]).len() > 0,
            open.len() > 0 ==> first == open[0].at.0,
            open.len() == 0 ==> it.index() == 0 && done.len() == 0,
    {
        let ghost before = cluster(sorted@.take(it.index()), eps as int);
        proof {
            assert(sorted@.take(it.index() + 1).drop_last() == sorted@.take(it.index()));
            assert(sorted@.take(it.index() + 1).last() == c);
        }
        let d: i64 = c.at.0 as i64 - first as i64;
        let near = open.len() > 0 && -(eps as i64) <= d && d <= eps as i64;
        if near {
            let ghost old_open = open@;
            open.push(c);
            proof {
                assert(before.last() == old_open);
                assert(before.drop_last() =~= group_views(done@));
            }
        } else {
            let ghost old_done = done@;
            let ghost old_open = open@;
            if open.len() > 0 {
                done.push(open);
                proof {
                    assert(group_views(done@) =~= group_views(old_done).push(old_open));
                }
            }
            first = c.at.0;
            open = Vec::new();
            open.push(c);
            proof {
                assert(open@ =~= seq![c]);
            }
        }
    }
    proof {
        assert(sorted@.take(sorted@.len() as int) == sorted@);
    }
    if open.len() > 0 {
        let ghost old_done = done@;
        let ghost old_open = open@;
        done.push(open);
        proof {
            assert(group_views(done@) =~= group_views(old_done).push(old_open));
        }
    }
    done
}

/// Builds column number `col` from the windows of one group.
fn build_column(col: usize, group: Vec<Client>) -> (c: Column)
    requires
        group.len() > 0,
    ensures
        c@ == column_of(col as int, group@),
{
    let x = group[0].at.0;
    let ghost members = stable_sort(group@, SortKey::Y);
    let sorted = sort_clients(group, SortKey::Y);
    let mut rows: Vec<ColumnRow> = Vec::new();
    for client in it: sorted
        invariant
            it.seq() == members,
            sorted@ == members,
            rows.len() == it.index(),
            forall|j: int| 0 <= j < rows.len() ==> (#[trigger] rows[j])@ == rows_of(members)[j],
    {
        let row = rows.len();
        let y = client.at.1;
        rows.push(ColumnRow { row, y, client });
    }
    proof {
        assert(rows.deep_view() =~= rows_of(members));
    }
    Column { col, x, rows }
}

/// Builds the grid of columns and rows for `windows` with tolerance `eps`.
pub fn columnize(windows: Vec<Client>, eps: i32) -> (cols: Vec<Column>)
    ensures
        cols.deep_view() == columns_of(windows@, eps as int),
        well_formed(cols.deep_view()),
{
    proof {
        lemma_grid_well_formed(windows@, eps as int);
    }
    let ghost expected = columns_of(windows@, eps as int);
    let sorted = sort_clients(windows, SortKey::XThenY);
    let groups = scan_groups(sorted, eps);
    let ghost gv = group_views(groups@);
    let mut cols: Vec<Column> = Vec::new();
    for group in it: groups
        invariant
            it.seq() == groups@,
            gv == group_views(groups@),
            forall|i: int| 0 <= i < groups.len() ==> (#[trigger] groups[i]).len() > 0,
            cols.len() == it.index(),
            forall|i: int| 0 <= i < cols.len() ==> (#[trigger] cols[i])@ == column_of(i, gv[i]),
    {
        let col = cols.len();
        proof {
            assert(group == groups[col as int]);
            assert(gv[col as int] == group@);
        }
        cols.push(build_column(col, group));
    }
    proof {
        assert(cols.deep_view() =~= expected);
    }
    cols
}

/// Builds the grid for the workspace `cur` out of all windows that the
/// window manager reports. `eps` is the tolerance to use; without one the
/// configuration knob `setting` decides.
pub fn columnize_active_workspace(
    cur: i64,
    all: Vec<Client>,
    eps: Option<i32>,
    setting: Option<&str>,
) -> (cols: Vec<Column>)
    ensures
        cols.deep_view() == columns_of(
            eligible_windows(all@, cur),
            match eps {
                Some(e) => e as int,
                None => epsilon_setting(
                    match setting {
                        Some(s) => Some(s@),
                        None => None,
                    },
                ),
            },
        ),
{
    let windows = clients_on_current_workspace(cur, all);
    let eps = match eps {
        Some(e) => e,
        None => column_epsilon_from_env(setting),
    };
    columnize(windows, eps)
}

/// Whether some group of `groups` holds the window `w`.
pub open spec fn in_groups(groups: Seq<Seq<Client>>, w: Client) -> bool {
    exists|i: int| 0 <= i < groups.len() && (#[trigger] groups[i]).contains(w)
}

/// What a scan of ordered windows with a tolerance that is not negative
/// gives: no group is empty; each window of `s`, and no other, is in a
/// group; each window of a group stands at or right of the group's first
/// window, by no more than `eps`; and the first window of a later group
/// stands more than `eps` right of the first window of an earlier one.
pub open spec fn clustered(s: Seq<Client>, groups: Seq<Seq<Client>>, eps: int) -> bool {
    &&& forall|i: int| 0 <= i < groups.len() ==> (#[trigger] groups[i]).len() > 0
    &&& forall|i: int, w: Client|
        0 <= i < groups.len() && #[trigger] groups[i].contains(w) ==> s.contains(w) && 0 <= w.at.0
            - groups[i][0].at.0 <= eps
    &&& forall|i: int, k: int|
        0 <= i < k < groups.len() ==> (#[trigger] groups[k])[0].at.0 - (#[trigger] groups[i])[0].at.0
            > eps
    &&& forall|w: Client| #[trigger] s.contains(w) ==> in_groups(groups, w)
}

/// A sequence that ends with `a` holds what it held before, and `a`.
proof fn lemma_contains_push(q: Seq<Client>, a: Client, v: Client)
    ensures
        q.push(a).contains(v) <==> q.contains(v) || v == a,
{
    let r = q.push(a);
    if q.contains(v) {
        let i = choose|i: int| 0 <= i < q.len() && q[i] == v;
        assert(r[i] == v);
    }
    if v == a {
        assert(r[q.len() as int] == v);
    }
    if r.contains(v) {
        let i = choose|i: int| 0 <= i < r.len() && r[i] == v;
        if i < q.len() {
            assert(q[i] == v);
        }
    }
}

/// The scan of ordered windows gives groups as [`clustered`] describes.
pub proof fn lemma_cluster_structure(s: Seq<Client>, eps: int)
    requires
        is_sorted(s, SortKey::XThenY),
        eps >= 0,
    ensures
        clustered(s, cluster(s, eps), eps),
    decreases s.len(),
{
    let g = cluster(s, eps);
    if s.len() == 0 {
        assert forall|w: Client| #[trigger] s.contains(w) implies in_groups(g, w) by {}
    } else {
        let head = s.drop_last();
        let w0 = s.last();
        let gh = cluster(head, eps);
        assert(is_sorted(head, SortKey::XThenY)) by {
            assert forall|i: int, j: int| 0 <= i <= j < head.len() implies no_later(
                head[i],
                head[j],
                SortKey::XThenY,
            ) by {
                assert(no_later(s[i], s[j], SortKey::XThenY));
            }
        }
        lemma_cluster_structure(head, eps);
        assert(s == head.push(w0));
        assert forall|v: Client| head.contains(v) implies v.at.0 <= w0.at.0 && s.contains(v) by {
            let i = choose|i: int| 0 <= i < head.len() && head[i] == v;
            assert(no_later(s[i], s[s.len() - 1], SortKey::XThenY));
            assert(s[i] == v);
        }
        assert(s.contains(w0)) by {
            assert(s[s.len() - 1] == w0);
        }
        let n = gh.len() as int;
        if n > 0 && gh.last().len() > 0 && joins(w0.at.0 as int, gh.last()[0].at.0 as int, eps) {
            let last = gh.last();
            assert(g == gh.drop_last().push(last.push(w0)));
            assert(g.len() == n);
            assert(forall|i: int| 0 <= i < n - 1 ==> g[i] == gh[i]);
            assert(g[n - 1] == last.push(w0));
            assert(last.contains(last[0]));
            assert(gh[n - 1].contains(last[0]));
            assert(head.contains(last[0]));
            assert forall|i: int, w: Client|
                0 <= i < g.len() && #[trigger] g[i].contains(w) implies s.contains(w) && 0
                <= w.at.0 - g[i][0].at.0 <= eps by {
                if i == n - 1 {
                    lemma_contains_push(last, w0, w);
                    if w != w0 {
                        assert(gh[n - 1].contains(w));
                        assert(head.contains(w));
                    }
                } else {
                    assert(gh[i].contains(w));
                    assert(head.contains(w));
                }
            }
            assert forall|i: int, k: int| 0 <= i < k < g.len() implies (#[trigger] g[k])[0].at.0 - (
            #[trigger] g[i])[0].at.0 > eps by {
                assert(gh[k][0].at.0 - gh[i][0].at.0 > eps);
            }
            assert forall|w: Client| #[trigger] s.contains(w) implies in_groups(g, w) by {
                lemma_contains_push(head, w0, w);
                if w == w0 {
                    lemma_contains_push(last, w0, w);
                    assert(g[n - 1].contains(w));
                } else {
                    assert(head.contains(w));
                    assert(in_groups(gh, w));
                    let i = choose|i: int| 0 <= i < gh.len() && (#[trigger] gh[i]).contains(w);
                    if i == n - 1 {
                        lemma_contains_push(last, w0, w);
                    }
                    assert(g[i].contains(w));
                }
            }
        } else {
            assert(g == gh.push(seq![w0]));
            assert(g.len() == n + 1);
            assert(forall|i: int| 0 <= i < n ==> g[i] == gh[i]);
            assert(g[n] == seq![w0]);
            assert forall|i: int, w: Client|
                0 <= i < g.len() && #[trigger] g[i].contains(w) implies s.contains(w) && 0
                <= w.at.0 - g[i][0].at.0 <= eps by {
                if i == n {
                    lemma_contains_push(Seq::empty(), w0, w);
                    assert(Seq::<Client>::empty().push(w0) == seq![w0]);
                } else {
                    assert(gh[i].contains(w));
                    assert(head.contains(w));
                }
            }
            assert forall|i: int, k: int| 0 <= i < k < g.len() implies (#[trigger] g[k])[0].at.0 - (
            #[trigger] g[i])[0].at.0 > eps by {
                if k == n {
                    let last = gh.last();
                    assert(gh[n - 1].len() > 0);
                    assert(last.contains(last[0]));
                    assert(gh[n - 1].contains(last[0]));
                    assert(head.contains(last[0]));
                    assert(gh[i].contains(gh[i][0]));
                    if i < n - 1 {
                        assert(gh[n - 1][0].at.0 - gh[i][0].at.0 > eps);
                    }
                } else {
                    assert(gh[k][0].at.0 - gh[i][0].at.0 > eps);
                }
            }
            assert forall|w: Client| #[trigger] s.contains(w) implies in_groups(g, w) by {
                lemma_contains_push(head, w0, w);
                if w == w0 {
                    assert(g[n][0] == w);
                    assert(g[n].contains(w));
                } else {
                    assert(in_groups(gh, w));
                    let i = choose|i: int| 0 <= i < gh.len() && (#[trigger] gh[i]).contains(w);
                    assert(g[i].contains(w));
                }
            }
        }
    }
}

/// Whether the column `c` holds the window `w`.
pub open spec fn holds(c: ColumnView, w: Client) -> bool {
    exists|j: int| 0 <= j < c.rows.len() && (#[trigger] c.rows[j]).client == w
}

/// Whether some column of `grid` holds the window `w`.
pub open spec fn in_grid(grid: Seq<ColumnView>, w: Client) -> bool {
    exists|i: int| 0 <= i < grid.len() && holds(#[trigger] grid[i], w)
}

/// Whether the numbers in a grid are dense: column `i` carries the number
/// `i`, and its rows carry the numbers 0, 1, 2 and so on from the top,
/// each with the `y` of its window, in ascending `y`.
pub open spec fn well_formed(grid: Seq<ColumnView>) -> bool {
    forall|i: int|
        0 <= i < grid.len() ==> {
            &&& (#[trigger] grid[i]).col == i
            &&& grid[i].rows.len() > 0
            &&& forall|j: int|
                0 <= j < grid[i].rows.len() ==> (#[trigger] grid[i].rows[j]).row == j
                    && grid[i].rows[j].y == grid[i].rows[j].client.at.1
            &&& forall|j: int, k: int|
                0 <= j <= k < grid[i].rows.len() ==> (#[trigger] grid[i].rows[j]).y <= (
                #[trigger] grid[i].rows[k]).y
        }
}

/// No group of a scan is empty.
pub proof fn lemma_cluster_nonempty(s: Seq<Client>, eps: int)
    ensures
        forall|i: int| 0 <= i < cluster(s, eps).len() ==> (#[trigger] cluster(s, eps)[i]).len() > 0,
    decreases s.len(),
{
    if s.len() > 0 {
        lemma_cluster_nonempty(s.drop_last(), eps);
        let g = cluster(s, eps);
        let gh = cluster(s.drop_last(), eps);
        assert forall|i: int| 0 <= i < g.len() implies (#[trigger] g[i]).len() > 0 by {
            if i < g.len() - 1 {
                assert(g[i] == gh[i]);
            }
        }
    }
}

/// Column and row numbers of every grid are dense and start at 0, no
/// column is empty, and the rows of each column stand in ascending `y`.
pub proof fn lemma_grid_well_formed(windows: Seq<Client>, eps: int)
    ensures
        well_formed(columns_of(windows, eps)),
{
    let groups = cluster(stable_sort(windows, SortKey::XThenY), eps);
    let grid = columns_of(windows, eps);
    lemma_cluster_nonempty(stable_sort(windows, SortKey::XThenY), eps);
    assert forall|i: int| 0 <= i < grid.len() implies {
        &&& (#[trigger] grid[i]).col == i
        &&& grid[i].rows.len() > 0
        &&& forall|j: int|
            0 <= j < grid[i].rows.len() ==> (#[trigger] grid[i].rows[j]).row == j
                && grid[i].rows[j].y == grid[i].rows[j].client.at.1
        &&& forall|j: int, k: int|
            0 <= j <= k < grid[i].rows.len() ==> (#[trigger] grid[i].rows[j]).y <= (
            #[trigger] grid[i].rows[k]).y
    } by {
        let members = stable_sort(groups[i], SortKey::Y);
        lemma_sort_sorted(groups[i], SortKey::Y);
        lemma_sort_permutes(groups[i], SortKey::Y);
        assert(grid[i] == column_of(i, groups[i]));
        assert(groups[i].len() > 0);
        assert forall|j: int, k: int| 0 <= j <= k < grid[i].rows.len() implies (
        #[trigger] grid[i].rows[j]).y <= (#[trigger] grid[i].rows[k]).y by {
            assert(no_later(members[j], members[k], SortKey::Y));
        }
    }
}

/// Whether the column's `x` is the `x` of one of its windows.
pub open spec fn anchored(c: ColumnView) -> bool {
    exists|w: Client| #[trigger] holds(c, w) && w.at.0 == c.x
}

/// Where the columns of a grid stand and which windows each holds, for a
/// tolerance that is not negative: the grid holds the windows it was
/// built from and no others; a column holds exactly the windows that
/// stand at its `x` or right of it by no more than `eps`; a column's `x`
/// is that of one of its windows; and each column stands more than `eps`
/// right of the columns before it.
pub open spec fn partitions(windows: Seq<Client>, grid: Seq<ColumnView>, eps: int) -> bool {
    &&& forall|w: Client| #[trigger] windows.contains(w) <==> in_grid(grid, w)
    &&& forall|i: int, w: Client|
        0 <= i < grid.len() && windows.contains(w) ==> (#[trigger] holds(grid[i], w) <==> 0
            <= w.at.0 - grid[i].x <= eps)
    &&& forall|i: int| 0 <= i < grid.len() ==> anchored(#[trigger] grid[i])
    &&& forall|i: int, k: int|
        0 <= i < k < grid.len() ==> (#[trigger] grid[k]).x - (#[trigger] grid[i]).x > eps
}

/// A column of the grid holds the windows of its group.
proof fn lemma_column_holds(windows: Seq<Client>, eps: int, i: int, w: Client)
    requires
        0 <= i < columns_of(windows, eps).len(),
    ensures
        holds(columns_of(windows, eps)[i], w) <==> cluster(
            stable_sort(windows, SortKey::XThenY),
            eps,
        )[i].contains(w),
{
    let groups = cluster(stable_sort(windows, SortKey::XThenY), eps);
    let c = columns_of(windows, eps)[i];
    let members = stable_sort(groups[i], SortKey::Y);
    lemma_sort_permutes(groups[i], SortKey::Y);
    assert(c == column_of(i, groups[i]));
    if holds(c, w) {
        let j = choose|j: int| 0 <= j < c.rows.len() && (#[trigger] c.rows[j]).client == w;
        assert(members[j] == w);
        assert(members.contains(w));
    }
    if groups[i].contains(w) {
        assert(members.contains(w));
        let j = choose|j: int| 0 <= j < members.len() && members[j] == w;
        assert(c.rows[j].client == w);
    }
}

/// Every grid built with a tolerance that is not negative partitions its
/// windows as [`partitions`] describes.
pub proof fn lemma_columns_partition(windows: Seq<Client>, eps: int)
    requires
        eps >= 0,
    ensures
        partitions(windows, columns_of(windows, eps), eps),
{
    let sorted = stable_sort(windows, SortKey::XThenY);
    let groups = cluster(sorted, eps);
    let grid = columns_of(windows, eps);
    lemma_sort_sorted(windows, SortKey::XThenY);
    lemma_sort_permutes(windows, SortKey::XThenY);
    lemma_cluster_structure(sorted, eps);
    assert forall|i: int| 0 <= i < grid.len() implies (#[trigger] grid[i]).x == groups[i][0].at.0 by {
        assert(grid[i] == column_of(i, groups[i]));
    }
    assert forall|w: Client| #[trigger] windows.contains(w) <==> in_grid(grid, w) by {
        if windows.contains(w) {
            assert(sorted.contains(w));
            assert(in_groups(groups, w));
            let i = choose|i: int| 0 <= i < groups.len() && (#[trigger] groups[i]).contains(w);
            lemma_column_holds(windows, eps, i, w);
            assert(holds(grid[i], w));
        }
        if in_grid(grid, w) {
            let i = choose|i: int| 0 <= i < grid.len() && holds(#[trigger] grid[i], w);
            lemma_column_holds(windows, eps, i, w);
            assert(groups[i].contains(w));
            assert(sorted.contains(w));
        }
    }
    assert forall|i: int, k: int| 0 <= i < k < grid.len() implies (#[trigger] grid[k]).x - (
    #[trigger] grid[i]).x > eps by {
        assert(groups[k][0].at.0 - groups[i][0].at.0 > eps);
    }
    assert forall|i: int, w: Client| 0 <= i < grid.len() && windows.contains(w) implies (
    #[trigger] holds(grid[i], w) <==> 0 <= w.at.0 - grid[i].x <= eps) by {
        lemma_column_holds(windows, eps, i, w);
        if groups[i].contains(w) {
        } else if 0 <= w.at.0 - grid[i].x <= eps {
            assert(sorted.contains(w));
            assert(in_groups(groups, w));
            let k = choose|k: int| 0 <= k < groups.len() && (#[trigger] groups[k]).contains(w);
            assert(0 <= w.at.0 - groups[k][0].at.0 <= eps);
            if k < i {
                assert(groups[i][0].at.0 - groups[k][0].at.0 > eps);
            } else {
                assert(groups[k][0].at.0 - groups[i][0].at.0 > eps);
            }
        }
    }
    assert forall|i: int| 0 <= i < grid.len() implies anchored(#[trigger] grid[i]) by {
        let w = groups[i][0];
        assert(groups[i].len() > 0);
        assert(groups[i].contains(w));
        lemma_column_holds(windows, eps, i, w);
        assert(holds(grid[i], w) && w.at.0 == grid[i].x);
    }
}

/// Whether the windows fall into clusters that are more than `eps`
/// apart: two windows that are within `eps` of a third are within `eps`
/// of each other, so that being within `eps` sorts the windows into
/// clusters, and windows of different clusters are more than `eps` apart.
pub open spec fn clusters_apart(windows: Seq<Client>, eps: int) -> bool {
    forall|a: Client, b: Client, c: Client|
        #[trigger] windows.contains(a) && #[trigger] windows.contains(b) && #[trigger] windows.contains(c)
            && joins(a.at.0 as int, b.at.0 as int, eps) && joins(b.at.0 as int, c.at.0 as int, eps)
            ==> joins(a.at.0 as int, c.at.0 as int, eps)
}

/// Where the windows fall into clusters that are more than `eps` apart,
/// the grid has one column for each cluster: a column holds exactly the
/// windows that are within `eps` of its first window, whose `x` is the
/// column's, and no two columns are within `eps` of each other.
pub proof fn lemma_one_column_per_cluster(windows: Seq<Client>, eps: int)
    requires
        eps >= 0,
        clusters_apart(windows, eps),
    ensures
        forall|i: int, w: Client|
            0 <= i < columns_of(windows, eps).len() && windows.contains(w) ==> (#[trigger] holds(
                columns_of(windows, eps)[i],
                w,
            ) <==> joins(w.at.0 as int, columns_of(windows, eps)[i].x, eps)),
        forall|i: int, k: int|
            0 <= i < k < columns_of(windows, eps).len() ==> !joins(
                (#[trigger] columns_of(windows, eps)[k]).x,
                (#[trigger] columns_of(windows, eps)[i]).x,
                eps,
            ),
        forall|w: Client| #[trigger] windows.contains(w) <==> in_grid(columns_of(windows, eps), w),
{
    let grid = columns_of(windows, eps);
    lemma_columns_partition(windows, eps);
    assert forall|i: int, w: Client| 0 <= i < grid.len() && windows.contains(w) implies (
    #[trigger] holds(grid[i], w) <==> joins(w.at.0 as int, grid[i].x, eps)) by {
        if joins(w.at.0 as int, grid[i].x, eps) && !holds(grid[i], w) {
            assert(in_grid(grid, w));
            let k = choose|k: int| 0 <= k < grid.len() && holds(#[trigger] grid[k], w);
            assert(anchored(grid[i]) && anchored(grid[k]));
            let ri = choose|r: Client| #[trigger] holds(grid[i], r) && r.at.0 == grid[i].x;
            let rk = choose|r: Client| #[trigger] holds(grid[k], r) && r.at.0 == grid[k].x;
            assert(in_grid(grid, ri));
            assert(in_grid(grid, rk));
            assert(windows.contains(ri) && windows.contains(rk));
            assert(joins(rk.at.0 as int, w.at.0 as int, eps));
            assert(joins(w.at.0 as int, ri.at.0 as int, eps));
            assert(joins(rk.at.0 as int, ri.at.0 as int, eps));
            if k < i {
                assert(grid[i].x - grid[k].x > eps);
            } else {
                assert(grid[k].x - grid[i].x > eps);
            }
        }
    }
}

/// The windows of a column, top to bottom.
pub open spec fn members(c: ColumnView) -> Seq<Client> {
    Seq::new(c.rows.len(), |j: int| c.rows[j].client)
}

/// The windows of the first `n` columns of a grid, each as often as the
/// columns hold it.
pub open spec fn windows_upto(grid: Seq<ColumnView>, n: int) -> Multiset<Client>
    decreases n,
{
    if n <= 0 {
        Multiset::empty()
    } else {
        windows_upto(grid, n - 1).add(members(grid[n - 1]).to_multiset())
    }
}

/// The windows of a grid, each as often as the grid holds it.
pub open spec fn windows_in(grid: Seq<ColumnView>) -> Multiset<Client> {
    windows_upto(grid, grid.len() as int)
}

/// The windows of the first `n` groups, each as often as they hold it.
pub open spec fn groups_upto(groups: Seq<Seq<Client>>, n: int) -> Multiset<Client>
    decreases n,
{
    if n <= 0 {
        Multiset::empty()
    } else {
        groups_upto(groups, n - 1).add(groups[n - 1].to_multiset())
    }
}

/// Groups that agree up to `n` hold the same windows up to `n`.
proof fn lemma_groups_upto_prefix(a: Seq<Seq<Client>>, b: Seq<Seq<Client>>, n: int)
    requires
        n <= a.len(),
        n <= b.len(),
        forall|i: int| 0 <= i < n ==> a[i] == b[i],
    ensures
        groups_upto(a, n) == groups_upto(b, n),
    decreases n,
{
    if n > 0 {
        lemma_groups_upto_prefix(a, b, n - 1);
    }
}

/// A scan puts each window into one group, once.
proof fn lemma_cluster_multiset(s: Seq<Client>, eps: int)
    ensures
        groups_upto(cluster(s, eps), cluster(s, eps).len() as int) == s.to_multiset(),
    decreases s.len(),
{
    broadcast use vstd::seq_lib::to_multiset_build;

    let g = cluster(s, eps);
    if s.len() == 0 {
        s.to_multiset_ensures();
        assert(s.to_multiset().len() == 0);
        assert(s.to_multiset() =~= Multiset::<Client>::empty());
    } else {
        let head = s.drop_last();
        let w0 = s.last();
        let gh = cluster(head, eps);
        let n = gh.len() as int;
        lemma_cluster_multiset(head, eps);
        assert(s == head.push(w0));
        if n > 0 && gh.last().len() > 0 && joins(w0.at.0 as int, gh.last()[0].at.0 as int, eps) {
            assert(g == gh.drop_last().push(gh.last().push(w0)));
            lemma_groups_upto_prefix(g, gh, n - 1);
            assert(g[n - 1] == gh[n - 1].push(w0));
            assert(groups_upto(g, n) =~= groups_upto(gh, n).insert(w0));
        } else {
            assert(g == gh.push(seq![w0]));
            lemma_groups_upto_prefix(g, gh, n);
            assert(g[n] == Seq::<Client>::empty().push(w0));
            Seq::<Client>::empty().to_multiset_ensures();
            assert(Seq::<Client>::empty().to_multiset().len() == 0);
            assert(Seq::<Client>::empty().to_multiset() =~= Multiset::<Client>::empty());
            assert(groups_upto(g, n + 1) =~= groups_upto(gh, n).insert(w0));
        }
    }
}

/// The columns hold what the groups hold.
proof fn lemma_windows_upto(windows: Seq<Client>, eps: int, n: int)
    requires
        0 <= n <= columns_of(windows, eps).len(),
    ensures
        windows_upto(columns_of(windows, eps), n) == groups_upto(
            cluster(stable_sort(windows, SortKey::XThenY), eps),
            n,
        ),
    decreases n,
{
    if n > 0 {
        let groups = cluster(stable_sort(windows, SortKey::XThenY), eps);
        let grid = columns_of(windows, eps);
        lemma_windows_upto(windows, eps, n - 1);
        lemma_sort_permutes(groups[n - 1], SortKey::Y);
        assert(grid[n - 1] == column_of(n - 1, groups[n - 1]));
        assert(members(grid[n - 1]) =~= stable_sort(groups[n - 1], SortKey::Y));
    }
}

/// A grid holds each of the windows it was built from, as often as it
/// was given, and no other window.
pub proof fn lemma_grid_holds_each_window_once(windows: Seq<Client>, eps: int)
    ensures
        windows_in(columns_of(windows, eps)) == windows.to_multiset(),
{
    let sorted = stable_sort(windows, SortKey::XThenY);
    lemma_windows_upto(windows, eps, columns_of(windows, eps).len() as int);
    lemma_cluster_multiset(sorted, eps);
    lemma_sort_permutes(windows, SortKey::XThenY);
}

/// A grid holds a window at least as often as two of its columns
/// together, and as any one of them.
pub proof fn lemma_windows_upto_counts(grid: Seq<ColumnView>, n: int, i: int, k: int, c: Client)
    requires
        0 <= i <= k < n <= grid.len(),
    ensures
        windows_upto(grid, n).count(c) >= members(grid[i]).to_multiset().count(c),
        i < k ==> windows_upto(grid, n).count(c) >= members(grid[i]).to_multiset().count(c)
            + members(grid[k]).to_multiset().count(c),
    decreases n,
{
    if k < n - 1 {
        lemma_windows_upto_counts(grid, n - 1, i, k, c);
    } else if i < k {
        lemma_windows_upto_counts(grid, n - 1, i, i, c);
    }
}

} // verus!
