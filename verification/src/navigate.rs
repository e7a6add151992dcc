//! The navigator: focus and move, decided on a freshly built grid.

use crate::hypr::{
    batch_dispatch, carries, dry_line, focus_address, focus_command, joined, lemma_swap_commands,
    swap_columns, swap_command, swap_commands, swap_dispatch, Dispatch, DispatchView, Gateway,
    GatewayError,
};
use crate::layout::{
    columnize_active_workspace, columns_of, eligible_windows, epsilon_setting,
    lemma_grid_holds_each_window_once, lemma_grid_well_formed, lemma_windows_upto_counts,
    members, well_formed, windows_in, Column, ColumnView, RowView,
};
use crate::model::{opt_text, Client};
use crate::reference::{clamp_abs_to_col_index, clamp_index};
use crate::hypr::gateway_message;
use crate::text::{decimal_text, same_text, write_decimal};
use vstd::string::StringExecFns;
use vstd::prelude::*;

verus! {

/// Why a navigation command was not carried out.
#[derive(Debug, Clone, PartialEq, Eq)]
pub enum NavError {
    /// The workspace has no column at all.
    EmptyLayout,
    /// There are columns, but none with this number.
    NoSuchColumn { col: usize },
    /// The column has no row with this number.
    NoSuchRow { row: usize, col: usize },
    /// The focused window could not be asked for.
    Gateway(GatewayError),
}

/// What a navigation error says, in words.
pub open spec fn nav_message(e: NavError) -> Seq<char> {
    match e {
        NavError::EmptyLayout => "no columns"@,
        NavError::NoSuchColumn { col } => "no such column "@ + decimal_text(col as nat),
        NavError::NoSuchRow { row, col } => "no such row "@ + decimal_text(row as nat) + " in col "@
            + decimal_text(col as nat),
        NavError::Gateway(g) => gateway_message(g),
    }
}

impl NavError {
    /// The error in words. The empty layout has a message of its own.
    pub fn message(&self) -> (r: String)
        ensures
            r@ == nav_message(*self),
    {
        match self {
            NavError::EmptyLayout => "no columns".to_owned(),
            NavError::NoSuchColumn { col } => {
                let mut m = "no such column ".to_owned();
                m.append(write_decimal(*col as u64).as_str());
                m
            },
            NavError::NoSuchRow { row, col } => {
                let mut m = "no such row ".to_owned();
                m.append(write_decimal(*row as u64).as_str());
                m.append(" in col ");
                m.append(write_decimal(*col as u64).as_str());
                m
            },
            NavError::Gateway(g) => g.message(),
        }
    }
}

/// What the window manager reported when a navigation command began.
#[derive(Debug, Clone, PartialEq, Eq)]
pub struct Snapshot {
    /// The workspace that has the focus.
    pub workspace: i64,
    /// All windows, of every workspace.
    pub clients: Vec<Client>,
    /// The value of the knob for the clustering tolerance, where it is set.
    pub epsilon: Option<String>,
}

/// The grid that a snapshot gives.
pub open spec fn grid_of(snap: Snapshot) -> Seq<ColumnView> {
    columns_of(eligible_windows(snap.clients@, snap.workspace), epsilon_setting(opt_text(snap.epsilon)))
}

/// Builds the grid of a snapshot.
pub fn snapshot_grid(snap: Snapshot) -> (cols: Vec<Column>)
    ensures
        cols.deep_view() == grid_of(snap),
{
    let setting: Option<&str> = match &snap.epsilon {
        Some(s) => Some(s.as_str()),
        None => None,
    };
    columnize_active_workspace(snap.workspace, snap.clients, None, setting)
}

/// The row number of the first of `rows`, from `from` on, whose window
/// has the address `addr`.
pub open spec fn find_in_rows(rows: Seq<RowView>, addr: Seq<char>, from: int) -> Option<int>
    decreases rows.len() - from,
{
    if from < 0 || from >= rows.len() {
        None
    } else if rows[from].client.address@ == addr {
        Some(rows[from].row)
    } else {
        find_in_rows(rows, addr, from + 1)
    }
}

/// The column and row numbers of the first window with the address `addr`
/// in the columns from `from` on, left to right and top to bottom.
pub open spec fn find_window(grid: Seq<ColumnView>, addr: Seq<char>, from: int) -> Option<
    (int, int),
>
    decreases grid.len() - from,
{
    if from < 0 || from >= grid.len() {
        None
    } else {
        match find_in_rows(grid[from].rows, addr, 0) {
            Some(row) => Some((grid[from].col, row)),
            None => find_window(grid, addr, from + 1),
        }
    }
}

/// Looks a window up by its address.
pub fn find_col_row_by_addr(cols: &Vec<Column>, addr: &str) -> (r: Option<(usize, usize)>)
    ensures
        match r {
            Some((c, w)) => find_window(cols.deep_view(), addr@, 0) == Some((c as int, w as int)),
            None => find_window(cols.deep_view(), addr@, 0) is None,
        },
{
    let ghost grid = cols.deep_view();
    let mut i: usize = 0;
    while i < cols.len()
        invariant
            i <= cols.len(),
            grid == cols.deep_view(),
            find_window(grid, addr@, 0) == find_window(grid, addr@, i as int),
        decreases cols.len() - i,
    {
        let rows = &cols[i].rows;
        let ghost rv = grid[i as int].rows;
        proof {
            assert(rv == rows.deep_view());
        }
        let mut j: usize = 0;
        while j < rows.len()
            invariant
                j <= rows.len(),
                i < cols.len(),
                grid == cols.deep_view(),
                rows == &cols[i as int].rows,
                rv == grid[i as int].rows,
                rv == rows.deep_view(),
                find_window(grid, addr@, 0) == find_window(grid, addr@, i as int),
                find_in_rows(rv, addr@, 0) == find_in_rows(rv, addr@, j as int),
            decreases rows.len() - j,
        {
            proof {
                assert(rv[j as int] == rows[j as int]@);
            }
            if same_text(rows[j].client.address.as_str(), addr) {
                return Some((cols[i].col, rows[j].row));
            }
            j = j + 1;
        }
        i = i + 1;
    }
    None
}

/// Whether the result `r` is what `expected` says.
pub open spec fn is_outcome(r: Result<Dispatch, NavError>, expected: Result<DispatchView, NavError>) -> bool {
    match r {
        Ok(d) => expected == Ok::<DispatchView, NavError>(d@),
        Err(e) => expected == Err::<DispatchView, NavError>(e),
    }
}

/// The address of the focused window, or why it is not known.
pub open spec fn focused_address(active: Result<Client, GatewayError>) -> Result<
    Seq<char>,
    GatewayError,
> {
    match active {
        Ok(c) => Ok(c.address@),
        Err(e) => Err(e),
    }
}

/// Where the window with the address `addr` stands in the grid: its
/// column and row, or column 0 and row 0 for a window that the grid does
/// not hold.
pub open spec fn position_of(grid: Seq<ColumnView>, addr: Seq<char>) -> (int, int) {
    match find_window(grid, addr, 0) {
        Some(p) => p,
        None => (0, 0),
    }
}

/// Giving the focus to row `row` of column `col`, both counted from 0.
/// Without any column the layout is empty; a column or a row that does
/// not exist is an error of its own, and neither is ever replaced by its
/// nearest neighbour.
pub open spec fn focus_outcome(dry: bool, grid: Seq<ColumnView>, col: int, row: int) -> Result<
    DispatchView,
    NavError,
> {
    if grid.len() == 0 {
        Err(NavError::EmptyLayout)
    } else if col < 0 || col >= grid.len() {
        Err(NavError::NoSuchColumn { col: col as usize })
    } else if row < 0 || row >= grid[col].rows.len() {
        Err(NavError::NoSuchRow { row: row as usize, col: col as usize })
    } else {
        Ok(batch_dispatch(dry, seq![focus_command(grid[col].rows[row].client.address@)]))
    }
}

/// The row that a focus on column `target` goes to when the focused
/// window stands at `current`, which is column 0 and row 0 for a window
/// that the grid does not hold (see [`position_of`]): the row after the
/// current one, back to the first after the last, where the focus is in
/// that column already and the column has rows; the first row otherwise.
pub open spec fn cycle_row(grid: Seq<ColumnView>, target: int, current: (int, int)) -> int {
    if current.0 == target && 0 <= target < grid.len() && grid[target].rows.len() > 0 {
        (current.1 + 1) % (grid[target].rows.len() as int)
    } else {
        0
    }
}

/// Giving the focus to the column `abs`, counted from 1 and resolved to
/// an existing column. An empty layout is reported before anything else,
/// then a focused window that is not known.
pub open spec fn focus_cycle_outcome(
    dry: bool,
    grid: Seq<ColumnView>,
    active: Result<Seq<char>, GatewayError>,
    abs: int,
) -> Result<DispatchView, NavError> {
    if grid.len() == 0 {
        Err(NavError::EmptyLayout)
    } else {
        match active {
            Err(e) => Err(NavError::Gateway(e)),
            Ok(addr) => {
                let target = clamp_index(abs, grid.len() as int);
                focus_outcome(dry, grid, target, cycle_row(grid, target, position_of(grid, addr)))
            },
        }
    }
}

/// Giving the focus to row `row` of the column `abs`, counted from 1 and
/// resolved to an existing column. The row is taken as it is.
pub open spec fn focus_row_outcome(dry: bool, grid: Seq<ColumnView>, abs: int, row: int) -> Result<
    DispatchView,
    NavError,
> {
    if grid.len() == 0 {
        Err(NavError::EmptyLayout)
    } else {
        focus_outcome(dry, grid, clamp_index(abs, grid.len() as int), row)
    }
}

/// By how many columns the focused window has to move to reach the
/// column `abs`, counted from 1 and resolved to an existing column:
/// positive to the right, negative to the left.
pub open spec fn move_delta(grid: Seq<ColumnView>, addr: Seq<char>, abs: int) -> int {
    clamp_index(abs, grid.len() as int) - position_of(grid, addr).0
}

/// Moving the focused window to the column `abs`: as many unit swaps as
/// the columns are apart, none where the window stands there already.
pub open spec fn move_outcome(
    dry: bool,
    grid: Seq<ColumnView>,
    active: Result<Seq<char>, GatewayError>,
    abs: int,
) -> Result<DispatchView, NavError> {
    if grid.len() == 0 {
        Err(NavError::EmptyLayout)
    } else {
        match active {
            Err(e) => Err(NavError::Gateway(e)),
            Ok(addr) => Ok(swap_dispatch(dry, move_delta(grid, addr, abs))),
        }
    }
}

/// Gives the focus to a row of a column of the grid `cols`.
fn focus_in_grid(gw: &Gateway, cols: &Vec<Column>, col: usize, row: usize) -> (r: Result<
    Dispatch,
    NavError,
>)
    ensures
        is_outcome(r, focus_outcome(gw.dry, cols.deep_view(), col as int, row as int)),
{
    if cols.len() == 0 {
        return Err(NavError::EmptyLayout);
    }
    if col >= cols.len() {
        return Err(NavError::NoSuchColumn { col });
    }
    let rows = &cols[col].rows;
    if row >= rows.len() {
        return Err(NavError::NoSuchRow { row, col });
    }
    proof {
        assert(cols.deep_view()[col as int].rows == rows.deep_view());
        assert(rows.deep_view()[row as int] == rows[row as int]@);
    }
    Ok(focus_address(gw, rows[row].client.address.as_str()))
}

/// Gives the focus to row `row` of column `col`, both counted from 0 and
/// taken as they are.
pub fn focus_col_row(gw: &Gateway, snap: Snapshot, col: usize, row: usize) -> (r: Result<
    Dispatch,
    NavError,
>)
    ensures
        is_outcome(r, focus_outcome(gw.dry, grid_of(snap), col as int, row as int)),
        grid_of(snap).len() == 0 ==> r == Err::<Dispatch, NavError>(NavError::EmptyLayout),
{
    let cols = snapshot_grid(snap);
    focus_in_grid(gw, &cols, col, row)
}

/// Gives the focus to the column `abs`, counted from 1. Where the focus
/// is in that column already it goes on to the next row and from the
/// last row back to the first; otherwise it goes to the first row.
/// `active` is the focused window, or why it could not be asked for. A
/// focused window that the grid does not hold, such as a floating one,
/// counts as standing in column 0, row 0.
pub fn focus_abs_cycle(
    gw: &Gateway,
    snap: Snapshot,
    active: Result<Client, GatewayError>,
    abs: i32,
) -> (r: Result<Dispatch, NavError>)
    ensures
        is_outcome(
            r,
            focus_cycle_outcome(gw.dry, grid_of(snap), focused_address(active), abs as int),
        ),
        grid_of(snap).len() == 0 ==> r == Err::<Dispatch, NavError>(NavError::EmptyLayout),
{
    let cols = snapshot_grid(snap);
    if cols.len() == 0 {
        return Err(NavError::EmptyLayout);
    }
    let focused = match active {
        Ok(c) => c,
        Err(e) => {
            return Err(NavError::Gateway(e));
        },
    };
    let target = clamp_abs_to_col_index(abs, cols.len());
    let n = cols[target].rows.len();
    proof {
        assert(cols.deep_view()[target as int].rows.len() == n);
    }
    let (col, cur): (usize, usize) = match find_col_row_by_addr(&cols, focused.address.as_str()) {
        Some(found) => found,
        None => (0, 0),
    };
    let row: usize = if col == target && n > 1 {
        proof {
            vstd::arithmetic::div_mod::lemma_add_mod_noop(cur as int, 1, n as int);
            vstd::arithmetic::div_mod::lemma_small_mod(1, n as nat);
        }
        (cur % n + 1) % n
    } else {
        0
    };
    focus_in_grid(gw, &cols, target, row)
}

/// Gives the focus to row `row` of the column `abs`, counted from 1.
/// The row is not resolved: one that the column does not have is an error.
pub fn focus_abs_row(gw: &Gateway, snap: Snapshot, abs: i32, row: usize) -> (r: Result<
    Dispatch,
    NavError,
>)
    ensures
        is_outcome(r, focus_row_outcome(gw.dry, grid_of(snap), abs as int, row as int)),
        grid_of(snap).len() == 0 ==> r == Err::<Dispatch, NavError>(NavError::EmptyLayout),
{
    let cols = snapshot_grid(snap);
    if cols.len() == 0 {
        return Err(NavError::EmptyLayout);
    }
    let target = clamp_abs_to_col_index(abs, cols.len());
    focus_in_grid(gw, &cols, target, row)
}

/// Moves the focused window to the column `abs`, counted from 1, by unit
/// swaps alone. A row that came with the reference is not acted upon.
pub fn moveto_abs_row(
    gw: &Gateway,
    snap: Snapshot,
    active: Result<Client, GatewayError>,
    abs: i32,
    _maybe_row: Option<usize>,
) -> (r: Result<Dispatch, NavError>)
    ensures
        is_outcome(r, move_outcome(gw.dry, grid_of(snap), focused_address(active), abs as int)),
        grid_of(snap).len() == 0 ==> r == Err::<Dispatch, NavError>(NavError::EmptyLayout),
        r matches Ok(d) ==> focused_address(active) matches Ok(addr) && {
            let delta = move_delta(grid_of(snap), addr, abs as int);
            &&& carries(d@, swap_commands(delta))
            &&& delta == 0 <==> d is Nothing
            &&& delta != 0 ==> if gw.dry {
                d is Print
            } else {
                d@ == DispatchView::Run(seq!["--batch"@, joined(swap_commands(delta))])
            }
        },
{
    let cols = snapshot_grid(snap);
    if cols.len() == 0 {
        return Err(NavError::EmptyLayout);
    }
    let focused = match active {
        Ok(c) => c,
        Err(e) => {
            return Err(NavError::Gateway(e));
        },
    };
    let src: usize = match find_col_row_by_addr(&cols, focused.address.as_str()) {
        Some((col, _)) => col,
        None => 0,
    };
    let tgt = clamp_abs_to_col_index(abs, cols.len());
    if tgt >= src {
        Ok(swap_columns(gw, true, tgt - src))
    } else {
        Ok(swap_columns(gw, false, src - tgt))
    }
}

/// Moves the focused window to the column `abs`, counted from 1.
pub fn moveto_abs(gw: &Gateway, snap: Snapshot, active: Result<Client, GatewayError>, abs: i32) -> (r:
    Result<Dispatch, NavError>)
    ensures
        is_outcome(r, move_outcome(gw.dry, grid_of(snap), focused_address(active), abs as int)),
        grid_of(snap).len() == 0 ==> r == Err::<Dispatch, NavError>(NavError::EmptyLayout),
        r matches Ok(d) ==> focused_address(active) matches Ok(addr) && {
            let delta = move_delta(grid_of(snap), addr, abs as int);
            &&& carries(d@, swap_commands(delta))
            &&& delta == 0 <==> d is Nothing
            &&& delta != 0 ==> if gw.dry {
                d is Print
            } else {
                d@ == DispatchView::Run(seq!["--batch"@, joined(swap_commands(delta))])
            }
        },
{
    moveto_abs_row(gw, snap, active, abs, None)
}

/// Whether no two windows of the grid share an address.
pub open spec fn distinct_addresses(grid: Seq<ColumnView>) -> bool {
    forall|i: int, j: int, k: int, l: int|
        0 <= i < grid.len() && 0 <= j < grid[i].rows.len() && 0 <= k < grid.len() && 0 <= l
            < grid[k].rows.len() && (#[trigger] grid[i].rows[j]).client.address@ == (
        #[trigger] grid[k].rows[l]).client.address@ ==> i == k && j == l
}

/// Whether no two of the windows share an address.
pub open spec fn unique_addresses(windows: Seq<Client>) -> bool {
    forall|i: int, j: int|
        0 <= i < windows.len() && 0 <= j < windows.len() && (#[trigger] windows[i]).address@ == (
        #[trigger] windows[j]).address@ ==> i == j
}

/// The grid of windows with addresses of their own holds no address twice.
pub proof fn lemma_grid_addresses(windows: Seq<Client>, eps: int)
    requires
        unique_addresses(windows),
    ensures
        distinct_addresses(columns_of(windows, eps)),
{
    let grid = columns_of(windows, eps);
    let all = windows_in(grid);
    lemma_grid_holds_each_window_once(windows, eps);
    windows.to_multiset_ensures();
    assert(windows.no_duplicates());
    windows.lemma_multiset_has_no_duplicates();
    assert forall|i: int, j: int, k: int, l: int|
        0 <= i < grid.len() && 0 <= j < grid[i].rows.len() && 0 <= k < grid.len() && 0 <= l
            < grid[k].rows.len() && (#[trigger] grid[i].rows[j]).client.address@ == (
        #[trigger] grid[k].rows[l]).client.address@ implies i == k && j == l by {
        let a = grid[i].rows[j].client;
        let b = grid[k].rows[l].client;
        let mi = members(grid[i]);
        let mk = members(grid[k]);
        mi.to_multiset_ensures();
        mk.to_multiset_ensures();
        assert(mi[j] == a && mk[l] == b);
        assert(mi.contains(a) && mk.contains(b));
        lemma_windows_upto_counts(grid, grid.len() as int, i, i, a);
        lemma_windows_upto_counts(grid, grid.len() as int, k, k, b);
        assert(all.count(a) > 0 && all.count(b) > 0);
        assert(windows.contains(a) && windows.contains(b));
        let ia = choose|ia: int| 0 <= ia < windows.len() && windows[ia] == a;
        let ib = choose|ib: int| 0 <= ib < windows.len() && windows[ib] == b;
        assert(ia == ib);
        assert(a == b);
        assert(all.count(a) == 1);
        if i < k {
            lemma_windows_upto_counts(grid, grid.len() as int, i, k, a);
        } else if k < i {
            lemma_windows_upto_counts(grid, grid.len() as int, k, i, a);
        } else if j != l {
            assert forall|x: Client| mi.to_multiset().contains(x) implies mi.to_multiset().count(x)
                == 1 by {
                lemma_windows_upto_counts(grid, grid.len() as int, i, i, x);
                assert(all.count(x) > 0);
                assert(all.contains(x));
            }
            mi.lemma_multiset_has_no_duplicates_conv();
            assert(mi[j] != mi[l]);
        }
    }
}

/// A column without the address holds no such window.
proof fn lemma_find_in_rows_none(rows: Seq<RowView>, addr: Seq<char>, from: int)
    requires
        0 <= from,
        forall|j: int| from <= j < rows.len() ==> (#[trigger] rows[j]).client.address@ != addr,
    ensures
        find_in_rows(rows, addr, from) is None,
    decreases rows.len() - from,
{
    if from < rows.len() {
        lemma_find_in_rows_none(rows, addr, from + 1);
    }
}

/// The first row with the address is the one that is found.
proof fn lemma_find_in_rows_at(rows: Seq<RowView>, addr: Seq<char>, r: int, from: int)
    requires
        0 <= from <= r < rows.len(),
        forall|j: int| from <= j < r ==> (#[trigger] rows[j]).client.address@ != addr,
        rows[r].client.address@ == addr,
    ensures
        find_in_rows(rows, addr, from) == Some(rows[r].row),
    decreases r - from,
{
    if from < r {
        lemma_find_in_rows_at(rows, addr, r, from + 1);
    }
}

/// In a grid whose windows have addresses of their own, a window is
/// found where it stands.
pub proof fn lemma_find_window(grid: Seq<ColumnView>, t: int, r: int, from: int)
    requires
        well_formed(grid),
        distinct_addresses(grid),
        0 <= from <= t < grid.len(),
        0 <= r < grid[t].rows.len(),
    ensures
        find_window(grid, grid[t].rows[r].client.address@, from) == Some((t, r)),
    decreases t - from,
{
    let addr = grid[t].rows[r].client.address@;
    if from < t {
        assert forall|j: int| 0 <= j < grid[from].rows.len() implies (
        #[trigger] grid[from].rows[j]).client.address@ != addr by {
            if grid[from].rows[j].client.address@ == grid[t].rows[r].client.address@ {
                assert(from == t);
            }
        }
        lemma_find_in_rows_none(grid[from].rows, addr, 0);
        lemma_find_window(grid, t, r, from + 1);
    } else {
        assert forall|j: int| 0 <= j < r implies (#[trigger] grid[t].rows[j]).client.address@
            != addr by {
            if grid[t].rows[j].client.address@ == grid[t].rows[r].client.address@ {
                assert(j == r);
            }
        }
        lemma_find_in_rows_at(grid[t].rows, addr, r, 0);
        assert(grid[t].rows[r].row == r);
        assert(grid[t].col == t);
    }
}

/// The row that the focus goes to when the column `abs` is asked for
/// while the focus is on row `r` of that very column.
pub open spec fn next_row(grid: Seq<ColumnView>, abs: int, r: int) -> int {
    let t = clamp_index(abs, grid.len() as int);
    cycle_row(grid, t, position_of(grid, grid[t].rows[r].client.address@))
}

/// The row that has the focus after the column `abs` was asked for `k`
/// times in a row, starting on row `start` of that column.
pub open spec fn row_after(grid: Seq<ColumnView>, abs: int, start: int, k: nat) -> int
    decreases k,
{
    if k == 0 {
        start
    } else {
        next_row(grid, abs, row_after(grid, abs, start, (k - 1) as nat))
    }
}

/// Whether the focus is on row `row` after fewer than `steps` steps.
pub open spec fn visited(grid: Seq<ColumnView>, abs: int, start: int, steps: nat, row: int) -> bool {
    exists|k: nat| k < steps && #[trigger] row_after(grid, abs, start, k) == row
}

/// Asking for the column that the focus is in moves the focus one row
/// down, and from the last row to the first; the command that is sent is
/// the focus on the window of that row.
pub proof fn lemma_cycle_step(dry: bool, grid: Seq<ColumnView>, abs: int, r: int)
    requires
        well_formed(grid),
        distinct_addresses(grid),
        grid.len() > 0,
        0 <= r < grid[clamp_index(abs, grid.len() as int)].rows.len(),
    ensures
        ({
            let t = clamp_index(abs, grid.len() as int);
            let m = grid[t].rows.len() as int;
            let next = if r + 1 < m {
                r + 1
            } else {
                0
            };
            &&& next_row(grid, abs, r) == next
            &&& focus_cycle_outcome(dry, grid, Ok(grid[t].rows[r].client.address@), abs) == Ok::<
                DispatchView,
                NavError,
            >(batch_dispatch(dry, seq![focus_command(grid[t].rows[next].client.address@)]))
        }),
{
    let t = clamp_index(abs, grid.len() as int);
    let m = grid[t].rows.len() as int;
    lemma_find_window(grid, t, r, 0);
    if r + 1 < m {
        vstd::arithmetic::div_mod::lemma_small_mod((r + 1) as nat, m as nat);
    } else {
        vstd::arithmetic::div_mod::lemma_mod_self_0(m);
    }
}

/// Asking for the same column again and again, with the focus staying in
/// it, visits every row of the column once before any row comes again:
/// the rows come in ascending order, the first after the last, and after
/// as many steps as the column has rows the focus is back where it began.
pub proof fn lemma_cycle_visits_every_row(grid: Seq<ColumnView>, abs: int, start: int)
    requires
        well_formed(grid),
        distinct_addresses(grid),
        grid.len() > 0,
        0 <= start < grid[clamp_index(abs, grid.len() as int)].rows.len(),
    ensures
        ({
            let m = grid[clamp_index(abs, grid.len() as int)].rows.len() as int;
            &&& forall|k: nat|
                k <= m ==> #[trigger] row_after(grid, abs, start, k) == if start + k < m {
                    start + k
                } else {
                    start + k - m
                }
            &&& forall|j: nat, k: nat|
                j < k < m ==> #[trigger] row_after(grid, abs, start, j) != #[trigger] row_after(
                    grid,
                    abs,
                    start,
                    k,
                )
            &&& forall|row: int| 0 <= row < m ==> #[trigger] visited(grid, abs, start, m as nat, row)
            &&& row_after(grid, abs, start, m as nat) == start
        }),
{
    let m = grid[clamp_index(abs, grid.len() as int)].rows.len() as int;
    assert forall|k: nat| k <= m implies #[trigger] row_after(grid, abs, start, k) == if start + k
        < m {
        start + k
    } else {
        start + k - m
    } by {
        lemma_row_after(grid, abs, start, k);
    }
    assert forall|row: int| 0 <= row < m implies #[trigger] visited(
        grid,
        abs,
        start,
        m as nat,
        row,
    ) by {
        let k: nat = if row >= start {
            (row - start) as nat
        } else {
            (row - start + m) as nat
        };
        assert(k < m && row_after(grid, abs, start, k) == row);
    }
}

/// The row after `k` steps, without wrapping twice.
proof fn lemma_row_after(grid: Seq<ColumnView>, abs: int, start: int, k: nat)
    requires
        well_formed(grid),
        distinct_addresses(grid),
        grid.len() > 0,
        0 <= start < grid[clamp_index(abs, grid.len() as int)].rows.len(),
        k <= grid[clamp_index(abs, grid.len() as int)].rows.len(),
    ensures
        row_after(grid, abs, start, k) == if start + k < grid[clamp_index(
            abs,
            grid.len() as int,
        )].rows.len() {
            start + k
        } else {
            start + k - grid[clamp_index(abs, grid.len() as int)].rows.len()
        },
    decreases k,
{
    if k > 0 {
        lemma_row_after(grid, abs, start, (k - 1) as nat);
        lemma_cycle_step(true, grid, abs, row_after(grid, abs, start, (k - 1) as nat));
    }
}

/// A focused window that the grid does not hold counts as standing in
/// column 0, row 0: a focus that resolves to column 0 goes on to the row
/// after the first, which is the first again in a column of one row.
pub proof fn lemma_unknown_focus_cycles_from_origin(
    dry: bool,
    grid: Seq<ColumnView>,
    addr: Seq<char>,
    abs: int,
)
    requires
        grid.len() > 0,
        grid[0].rows.len() > 0,
        find_window(grid, addr, 0) is None,
        clamp_index(abs, grid.len() as int) == 0,
    ensures
        focus_cycle_outcome(dry, grid, Ok(addr), abs) == Ok::<DispatchView, NavError>(
            batch_dispatch(
                dry,
                seq![
                    focus_command(
                        grid[0].rows[if grid[0].rows.len() == 1 {
                            0
                        } else {
                            1
                        }].client.address@,
                    ),
                ],
            ),
        ),
{
    let n = grid[0].rows.len() as int;
    if n == 1 {
        vstd::arithmetic::div_mod::lemma_mod_self_0(n);
    } else {
        vstd::arithmetic::div_mod::lemma_small_mod(1, n as nat);
    }
}

/// Moving the window that stands in column `s` to the column `abs` takes
/// as many unit swaps as the two columns are apart, all to the right or
/// all to the left, and no other command; none where the window stands
/// in that column already. Unless it is a dry run they are sent in one
/// batch: a single call, with the swaps joined by a semicolon and a space.
pub proof fn lemma_move_by_unit_swaps(dry: bool, grid: Seq<ColumnView>, abs: int, s: int, r: int)
    requires
        well_formed(grid),
        distinct_addresses(grid),
        0 <= s < grid.len(),
        0 <= r < grid[s].rows.len(),
    ensures
        ({
            let t = clamp_index(abs, grid.len() as int);
            let cmds = swap_commands(t - s);
            let outcome = move_outcome(dry, grid, Ok(grid[s].rows[r].client.address@), abs);
            &&& cmds.len() == if t < s {
                s - t
            } else {
                t - s
            }
            &&& forall|i: int| 0 <= i < cmds.len() ==> #[trigger] cmds[i] == swap_command(t > s)
            &&& t == s ==> outcome == Ok::<DispatchView, NavError>(DispatchView::Nothing)
            &&& t != s && dry ==> outcome == Ok::<DispatchView, NavError>(
                DispatchView::Print(Seq::new(cmds.len(), |i: int| dry_line(cmds[i]))),
            )
            &&& t != s && !dry ==> outcome == Ok::<DispatchView, NavError>(
                DispatchView::Run(seq!["--batch"@, joined(cmds)]),
            )
        }),
{
    lemma_find_window(grid, s, r, 0);
    lemma_swap_commands(clamp_index(abs, grid.len() as int) - s);
}

/// The grid of every snapshot is well formed, and where the windows
/// that take part have addresses of their own, so have the windows of
/// the grid: the two things that the laws on cycling ask of a grid.
pub proof fn lemma_snapshot_grid(snap: Snapshot)
    ensures
        well_formed(grid_of(snap)),
        unique_addresses(eligible_windows(snap.clients@, snap.workspace)) ==> distinct_addresses(
            grid_of(snap),
        ),
{
    let windows = eligible_windows(snap.clients@, snap.workspace);
    let eps = epsilon_setting(opt_text(snap.epsilon));
    lemma_grid_well_formed(windows, eps);
    if unique_addresses(windows) {
        lemma_grid_addresses(windows, eps);
    }
}

} // verus!
