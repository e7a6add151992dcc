use hyprscrolling_orchestrator::hypr::{Dispatch, Gateway, GatewayError};
use hyprscrolling_orchestrator::model::{Client, WorkspaceRef};
use hyprscrolling_orchestrator::{
    columnize, find_col_row_by_addr, focus_abs_cycle, focus_abs_row, focus_col_row, moveto_abs,
    moveto_abs_row, NavError, Snapshot,
};

fn pane(address: &str, x: i32, y: i32) -> Client {
    Client {
        address: address.to_string(),
        mapped: true,
        hidden: false,
        at: (x, y),
        size: (100, 100),
        workspace: WorkspaceRef { id: 1, name: "1".to_string() },
        floating: false,
        pseudo: false,
        monitor: 0,
        class: "term".to_string(),
        title: String::new(),
        fullscreen: None,
        xwayland: None,
        grouped: None,
        tags: None,
    }
}

/// Three columns: one window, three windows, two windows.
fn three_columns() -> Snapshot {
    Snapshot {
        workspace: 1,
        clients: vec![
            pane("0xa0", 0, 0),
            pane("0xb0", 500, 0),
            pane("0xb1", 500, 300),
            pane("0xb2", 510, 600),
            pane("0xc0", 1000, 0),
            pane("0xc1", 1000, 400),
        ],
        epsilon: None,
    }
}

fn empty_workspace() -> Snapshot {
    let mut elsewhere = pane("0xe0", 0, 0);
    elsewhere.workspace.id = 9;
    let mut hidden = pane("0xe1", 0, 0);
    hidden.hidden = true;
    Snapshot { workspace: 1, clients: vec![elsewhere, hidden], epsilon: None }
}

fn live() -> Gateway {
    Gateway::new()
}

fn dry() -> Gateway {
    Gateway { dry: true }
}

fn focus_on(address: &str) -> Dispatch {
    Dispatch::Run(vec!["--batch".to_string(), format!("dispatch focuswindow address:{address}")])
}

fn unfocused() -> GatewayError {
    GatewayError::Malformed {
        command: vec!["activewindow".to_string(), "-j".to_string()],
        reason: "missing field `address`".to_string(),
    }
}

#[test]
fn focus_on_the_column_of_the_focus_goes_to_the_next_row() {
    let r = focus_abs_cycle(&live(), three_columns(), Ok(pane("0xb0", 500, 0)), 2);
    assert_eq!(r, Ok(focus_on("0xb1")));
}

#[test]
fn focus_on_a_single_row_column_stays_on_its_row() {
    let r = focus_abs_cycle(&live(), three_columns(), Ok(pane("0xa0", 0, 0)), 1);
    assert_eq!(r, Ok(focus_on("0xa0")));
}

#[test]
fn focus_on_another_column_goes_to_its_first_row() {
    let r = focus_abs_cycle(&live(), three_columns(), Ok(pane("0xb2", 510, 600)), 3);
    assert_eq!(r, Ok(focus_on("0xc0")));
}

#[test]
fn focus_cycle_wraps_from_the_last_row_to_the_first() {
    let r = focus_abs_cycle(&live(), three_columns(), Ok(pane("0xb2", 510, 600)), 2);
    assert_eq!(r, Ok(focus_on("0xb0")));
}

#[test]
fn repeated_focus_visits_every_row_once() {
    let mut focused = "0xb1".to_string();
    let mut seen = Vec::new();
    for _ in 0..3 {
        let r = focus_abs_cycle(&live(), three_columns(), Ok(pane(&focused, 0, 0)), 2);
        let Ok(Dispatch::Run(args)) = r else { panic!("no dispatch") };
        focused = args[1].strip_prefix("dispatch focuswindow address:").unwrap().to_string();
        seen.push(focused.clone());
    }
    assert_eq!(seen, vec!["0xb2", "0xb0", "0xb1"]);
}

#[test]
fn focus_clamps_the_column() {
    let far = focus_abs_cycle(&live(), three_columns(), Ok(pane("0xa0", 0, 0)), 99);
    assert_eq!(far, Ok(focus_on("0xc0")));
    let low = focus_abs_cycle(&live(), three_columns(), Ok(pane("0xc0", 0, 0)), -4);
    assert_eq!(low, Ok(focus_on("0xa0")));
    let zero = focus_abs_cycle(&live(), three_columns(), Ok(pane("0xc0", 0, 0)), 0);
    assert_eq!(zero, Ok(focus_on("0xa0")));
}

#[test]
fn unknown_focused_window_counts_as_first_column_first_row() {
    let same = focus_abs_cycle(&live(), three_columns(), Ok(pane("0xffff", 0, 0)), 1);
    assert_eq!(same, Ok(focus_on("0xa0")));
    let other = focus_abs_cycle(&live(), three_columns(), Ok(pane("0xffff", 0, 0)), 2);
    assert_eq!(other, Ok(focus_on("0xb0")));
    let moved = moveto_abs(&live(), three_columns(), Ok(pane("0xffff", 0, 0)), 2);
    assert_eq!(
        moved,
        Ok(Dispatch::Run(vec!["--batch".to_string(), "dispatch layoutmsg swapcol r".to_string()]))
    );
}

#[test]
fn unknown_focused_window_cycles_from_the_first_row_of_the_first_column() {
    let two_rows_first = || Snapshot {
        workspace: 1,
        clients: vec![pane("0xa0", 0, 0), pane("0xa1", 10, 200), pane("0xb0", 500, 0)],
        epsilon: None,
    };
    let floating = || Ok(pane("0xffff", 0, 0));
    assert_eq!(focus_abs_cycle(&live(), two_rows_first(), floating(), 1), Ok(focus_on("0xa1")));
    assert_eq!(focus_abs_cycle(&live(), two_rows_first(), floating(), 0), Ok(focus_on("0xa1")));
    assert_eq!(focus_abs_cycle(&live(), two_rows_first(), floating(), -3), Ok(focus_on("0xa1")));
    assert_eq!(focus_abs_cycle(&live(), two_rows_first(), floating(), 2), Ok(focus_on("0xb0")));
    assert_eq!(focus_abs_cycle(&live(), two_rows_first(), Ok(pane("0xa1", 0, 0)), 1), Ok(focus_on("0xa0")));
}

#[test]
fn cloned_window_keeps_every_field() {
    let mut w = pane("0xa0", 3, 4);
    w.grouped = Some(vec!["0xa0".to_string(), "0xa1".to_string()]);
    w.tags = Some(vec!["x".to_string()]);
    w.fullscreen = Some(2);
    w.xwayland = Some(true);
    let copy = w.clone();
    assert_eq!(copy, w);
    assert_eq!(copy.grouped, Some(vec!["0xa0".to_string(), "0xa1".to_string()]));
    assert_eq!(copy.tags, Some(vec!["x".to_string()]));
    let bare = pane("0xb0", 0, 0);
    assert_eq!(bare.clone(), bare);
}

#[test]
fn explicit_row_is_focused_without_cycling() {
    assert_eq!(focus_abs_row(&live(), three_columns(), 2, 2), Ok(focus_on("0xb2")));
    assert_eq!(focus_abs_row(&live(), three_columns(), 2, 0), Ok(focus_on("0xb0")));
    assert_eq!(focus_abs_row(&live(), three_columns(), 77, 1), Ok(focus_on("0xc1")));
}

#[test]
fn explicit_row_is_not_clamped() {
    assert_eq!(
        focus_abs_row(&live(), three_columns(), 2, 3),
        Err(NavError::NoSuchRow { row: 3, col: 1 })
    );
    assert_eq!(
        focus_abs_row(&live(), three_columns(), 1, 1),
        Err(NavError::NoSuchRow { row: 1, col: 0 })
    );
}

#[test]
fn zero_based_focus_takes_column_and_row_as_they_are() {
    assert_eq!(focus_col_row(&live(), three_columns(), 2, 1), Ok(focus_on("0xc1")));
    assert_eq!(
        focus_col_row(&live(), three_columns(), 3, 0),
        Err(NavError::NoSuchColumn { col: 3 })
    );
    assert_eq!(
        focus_col_row(&live(), three_columns(), 0, 1),
        Err(NavError::NoSuchRow { row: 1, col: 0 })
    );
}

#[test]
fn move_left_by_two_columns_is_two_swaps_in_one_batch() {
    let r = moveto_abs(&live(), three_columns(), Ok(pane("0xc1", 1000, 400)), 1);
    assert_eq!(
        r,
        Ok(Dispatch::Run(vec![
            "--batch".to_string(),
            "dispatch layoutmsg swapcol l; dispatch layoutmsg swapcol l".to_string(),
        ]))
    );
}

#[test]
fn move_right_swaps_to_the_right() {
    let r = moveto_abs(&live(), three_columns(), Ok(pane("0xa0", 0, 0)), 3);
    assert_eq!(
        r,
        Ok(Dispatch::Run(vec![
            "--batch".to_string(),
            "dispatch layoutmsg swapcol r; dispatch layoutmsg swapcol r".to_string(),
        ]))
    );
}

#[test]
fn move_to_the_column_of_the_focus_sends_nothing() {
    assert_eq!(moveto_abs(&live(), three_columns(), Ok(pane("0xb1", 0, 0)), 2), Ok(Dispatch::Nothing));
    assert_eq!(moveto_abs(&dry(), three_columns(), Ok(pane("0xb1", 0, 0)), 2), Ok(Dispatch::Nothing));
    assert_eq!(moveto_abs(&live(), three_columns(), Ok(pane("0xc0", 0, 0)), 50), Ok(Dispatch::Nothing));
}

#[test]
fn move_ignores_the_row() {
    let with_row = moveto_abs_row(&live(), three_columns(), Ok(pane("0xa0", 0, 0)), 2, Some(7));
    let without = moveto_abs_row(&live(), three_columns(), Ok(pane("0xa0", 0, 0)), 2, None);
    assert_eq!(with_row, without);
    assert_eq!(
        without,
        Ok(Dispatch::Run(vec!["--batch".to_string(), "dispatch layoutmsg swapcol r".to_string()]))
    );
}

#[test]
fn dry_run_prints_each_command_on_a_line() {
    let r = moveto_abs(&dry(), three_columns(), Ok(pane("0xc0", 0, 0)), 1);
    assert_eq!(
        r,
        Ok(Dispatch::Print(vec![
            "hyprctl dispatch layoutmsg swapcol l".to_string(),
            "hyprctl dispatch layoutmsg swapcol l".to_string(),
        ]))
    );
    let f = focus_abs_row(&dry(), three_columns(), 3, 1);
    assert_eq!(f, Ok(Dispatch::Print(vec!["hyprctl dispatch focuswindow address:0xc1".to_string()])));
}

#[test]
fn empty_workspace_fails_every_command_with_the_empty_layout() {
    assert_eq!(
        focus_abs_cycle(&live(), empty_workspace(), Ok(pane("0xe0", 0, 0)), 1),
        Err(NavError::EmptyLayout)
    );
    assert_eq!(focus_abs_row(&live(), empty_workspace(), 1, 0), Err(NavError::EmptyLayout));
    assert_eq!(focus_col_row(&live(), empty_workspace(), 0, 0), Err(NavError::EmptyLayout));
    assert_eq!(
        moveto_abs(&live(), empty_workspace(), Ok(pane("0xe0", 0, 0)), 1),
        Err(NavError::EmptyLayout)
    );
    assert_eq!(
        moveto_abs_row(&dry(), empty_workspace(), Ok(pane("0xe0", 0, 0)), 1, Some(0)),
        Err(NavError::EmptyLayout)
    );
}

#[test]
fn empty_layout_is_reported_before_a_missing_focus() {
    assert_eq!(
        focus_abs_cycle(&live(), empty_workspace(), Err(unfocused()), 1),
        Err(NavError::EmptyLayout)
    );
    assert_eq!(moveto_abs(&live(), empty_workspace(), Err(unfocused()), 1), Err(NavError::EmptyLayout));
}

#[test]
fn missing_focus_fails_focus_and_move() {
    assert_eq!(
        focus_abs_cycle(&live(), three_columns(), Err(unfocused()), 1),
        Err(NavError::Gateway(unfocused()))
    );
    assert_eq!(
        moveto_abs(&live(), three_columns(), Err(unfocused()), 1),
        Err(NavError::Gateway(unfocused()))
    );
}

#[test]
fn tolerance_setting_of_the_snapshot_shapes_the_grid() {
    let mut snap = three_columns();
    snap.epsilon = Some("5".to_string());
    let r = focus_abs_cycle(&live(), snap, Ok(pane("0xa0", 0, 0)), 3);
    assert_eq!(r, Ok(focus_on("0xb2")));
}

#[test]
fn window_is_found_by_its_address() {
    let cols = columnize(three_columns().clients, 40);
    assert_eq!(find_col_row_by_addr(&cols, "0xb2"), Some((1, 2)));
    assert_eq!(find_col_row_by_addr(&cols, "0xa0"), Some((0, 0)));
    assert_eq!(find_col_row_by_addr(&cols, "0xb"), None);
    assert_eq!(find_col_row_by_addr(&[].to_vec(), "0xa0"), None);
}

#[test]
fn navigation_errors_say_what_failed() {
    assert_eq!(NavError::EmptyLayout.message(), "no columns");
    assert_eq!(NavError::NoSuchColumn { col: 12 }.message(), "no such column 12");
    assert_eq!(NavError::NoSuchRow { row: 0, col: 305 }.message(), "no such row 0 in col 305");
    assert_eq!(
        NavError::NoSuchColumn { col: usize::MAX }.message(),
        format!("no such column {}", usize::MAX)
    );
    assert_eq!(
        NavError::Gateway(unfocused()).message(),
        "invalid JSON from hyprctl activewindow -j: missing field `address`"
    );
}
