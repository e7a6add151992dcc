use hyprscrolling_orchestrator::hypr::{
    active_workspace_id, focus_address, is_dry, list_workspaces, list_workspaces_text,
    open_workspace, read_number, run, run_batch_dispatch, set_dry, set_field, swap_columns,
    swapcol_delta, trimmed, workspace_from_members, workspaces_from_json, Dispatch, Gateway,
    GatewayError, Output,
};
use hyprscrolling_orchestrator::model::{ActiveWorkspace, Workspace};

fn blank(id: i64, name: &str, monitor: &str) -> Workspace {
    Workspace {
        id,
        name: name.to_string(),
        monitor: monitor.to_string(),
        monitor_id: 0,
        windows: 0,
        has_fullscreen: false,
        last_window: None,
        last_window_title: None,
        is_persistent: false,
    }
}

fn strings(items: &[&str]) -> Vec<String> {
    items.iter().map(|s| s.to_string()).collect()
}

#[test]
fn gateway_starts_live_and_can_be_switched() {
    let mut gw = Gateway::new();
    assert!(!is_dry(&gw));
    set_dry(&mut gw, true);
    assert!(is_dry(&gw));
    set_dry(&mut gw, false);
    assert!(!is_dry(&gw));
}

#[test]
fn live_batch_joins_the_commands() {
    let d = run_batch_dispatch(&Gateway::new(), &strings(&["a", "b c", "d"]));
    assert_eq!(d, Dispatch::Run(strings(&["--batch", "a; b c; d"])));
    let one = run_batch_dispatch(&Gateway::new(), &strings(&["only"]));
    assert_eq!(one, Dispatch::Run(strings(&["--batch", "only"])));
    let none = run_batch_dispatch(&Gateway::new(), &Vec::new());
    assert_eq!(none, Dispatch::Run(strings(&["--batch", ""])));
}

#[test]
fn dry_batch_prints_one_line_per_command() {
    let d = run_batch_dispatch(&Gateway { dry: true }, &strings(&["a", "b c"]));
    assert_eq!(d, Dispatch::Print(strings(&["hyprctl a", "hyprctl b c"])));
    let none = run_batch_dispatch(&Gateway { dry: true }, &Vec::new());
    assert_eq!(none, Dispatch::Print(Vec::new()));
}

#[test]
fn focus_is_one_command() {
    assert_eq!(
        focus_address(&Gateway::new(), "0x55d"),
        Dispatch::Run(strings(&["--batch", "dispatch focuswindow address:0x55d"]))
    );
    assert_eq!(
        focus_address(&Gateway { dry: true }, "0x55d"),
        Dispatch::Print(strings(&["hyprctl dispatch focuswindow address:0x55d"]))
    );
}

#[test]
fn swap_by_zero_is_nothing() {
    assert_eq!(swapcol_delta(&Gateway::new(), 0), Dispatch::Nothing);
    assert_eq!(swapcol_delta(&Gateway { dry: true }, 0), Dispatch::Nothing);
}

#[test]
fn swap_count_is_the_distance() {
    assert_eq!(
        swapcol_delta(&Gateway::new(), 3),
        Dispatch::Run(strings(&[
            "--batch",
            "dispatch layoutmsg swapcol r; dispatch layoutmsg swapcol r; dispatch layoutmsg swapcol r",
        ]))
    );
    assert_eq!(
        swapcol_delta(&Gateway::new(), -1),
        Dispatch::Run(strings(&["--batch", "dispatch layoutmsg swapcol l"]))
    );
    for delta in -6i32..=6 {
        match swapcol_delta(&Gateway { dry: true }, delta) {
            Dispatch::Nothing => assert_eq!(delta, 0),
            Dispatch::Print(lines) => {
                assert_eq!(lines.len(), delta.unsigned_abs() as usize);
                let way = if delta > 0 { "r" } else { "l" };
                for line in lines {
                    assert_eq!(line, format!("hyprctl dispatch layoutmsg swapcol {way}"));
                }
            }
            Dispatch::Run(_) => panic!("a dry run sends nothing"),
        }
    }
}

#[test]
fn swaps_are_counted_and_all_go_one_way() {
    assert_eq!(swap_columns(&Gateway::new(), true, 0), Dispatch::Nothing);
    assert_eq!(swap_columns(&Gateway::new(), false, 0), Dispatch::Nothing);
    assert_eq!(
        swap_columns(&Gateway::new(), false, 2),
        Dispatch::Run(strings(&["--batch", "dispatch layoutmsg swapcol l; dispatch layoutmsg swapcol l"]))
    );
    assert_eq!(
        swap_columns(&Gateway { dry: true }, true, 1),
        Dispatch::Print(strings(&["hyprctl dispatch layoutmsg swapcol r"]))
    );
    assert_eq!(swap_columns(&Gateway::new(), true, 3), swapcol_delta(&Gateway::new(), 3));
    assert_eq!(swap_columns(&Gateway::new(), false, 3), swapcol_delta(&Gateway::new(), -3));
}

#[test]
fn successful_run_hands_its_output_on() {
    let out = Output { success: true, status: "exit status: 0".to_string(), stdout: b"{}".to_vec(), stderr: String::new() };
    assert_eq!(run(strings(&["clients", "-j"]), Ok(out.clone())), Ok(out));
}

#[test]
fn failed_run_names_command_status_and_complaint() {
    let out = Output {
        success: false,
        status: "exit status: 1".to_string(),
        stdout: Vec::new(),
        stderr: "no such instance\n".to_string(),
    };
    assert_eq!(
        run(strings(&["--batch", "x"]), Ok(out)),
        Err(GatewayError::Failed {
            command: strings(&["--batch", "x"]),
            status: "exit status: 1".to_string(),
            stderr: "no such instance\n".to_string(),
        })
    );
}

#[test]
fn run_that_did_not_start_is_unreachable() {
    assert_eq!(
        run(strings(&["clients", "-j"]), Err("No such file or directory".to_string())),
        Err(GatewayError::Unreachable {
            command: strings(&["clients", "-j"]),
            reason: "No such file or directory".to_string(),
        })
    );
}

#[test]
fn active_workspace_id_is_read_from_the_record() {
    assert_eq!(active_workspace_id(&ActiveWorkspace { id: -98, name: "special".to_string() }), -98);
}

#[test]
fn json_listing_is_read_member_by_member() {
    let text = br#"[
        {"id": 3, "name": "web", "monitor": "DP-1", "monitorID": 1, "windows": 4,
         "hasfullscreen": 1, "lastwindow": "0x1a", "lastwindowtitle": "Docs", "ispersistent": 0},
        {"id": 4, "name": "mail"}
    ]"#;
    let got = list_workspaces(Some(text)).unwrap();
    let first = Workspace {
        id: 3,
        name: "web".to_string(),
        monitor: "DP-1".to_string(),
        monitor_id: 1,
        windows: 4,
        has_fullscreen: true,
        last_window: Some("0x1a".to_string()),
        last_window_title: Some("Docs".to_string()),
        is_persistent: false,
    };
    assert_eq!(got, vec![first, blank(4, "mail", "")]);
}

#[test]
fn json_members_of_another_type_read_as_missing() {
    let text = br#"[{"id": "7", "name": 12, "hasfullscreen": true, "windows": 2.5,
                     "monitorID": 18446744073709551615, "lastwindow": null, "ispersistent": 2}]"#;
    let got = list_workspaces(Some(text)).unwrap();
    let mut expected = blank(0, "", "");
    expected.is_persistent = true;
    assert_eq!(got, vec![expected]);
}

#[test]
fn json_elements_that_are_no_objects_give_blank_workspaces() {
    let got = list_workspaces(Some(b"[1, \"x\", [], {}]")).unwrap();
    assert_eq!(got, vec![blank(0, "", ""), blank(0, "", ""), blank(0, "", ""), blank(0, "", "")]);
}

#[test]
fn json_that_is_no_array_lists_nothing() {
    assert_eq!(list_workspaces(Some(b"{\"id\": 1}")), Some(Vec::new()));
    assert_eq!(list_workspaces(Some(b"[]")), Some(Vec::new()));
    assert_eq!(list_workspaces(Some(b"null")), Some(Vec::new()));
}

#[test]
fn broken_json_asks_for_the_textual_listing() {
    assert_eq!(list_workspaces(Some(b"workspace ID 1 (1) on monitor DP-1:")), None);
    assert_eq!(list_workspaces(Some(b"")), None);
    assert_eq!(list_workspaces(Some(b"[{\"id\": 1}")), None);
    assert_eq!(list_workspaces(None), None);
}

#[test]
fn parsed_json_value_is_read_by_rows() {
    let v: serde_json::Value = serde_json::from_str(r#"[{"id": 9, "monitor": "HDMI-A-1"}]"#).unwrap();
    assert_eq!(workspaces_from_json(&v), vec![blank(9, "", "HDMI-A-1")]);
}

#[test]
fn members_default_to_zero_false_and_empty() {
    let w = workspace_from_members(None, None, None, None, None, None, None, None, None);
    assert_eq!(w, blank(0, "", ""));
    let full = workspace_from_members(
        Some(-5),
        Some("n".to_string()),
        Some("m".to_string()),
        Some(2),
        Some(3),
        Some(-1),
        Some("0x0".to_string()),
        Some(String::new()),
        Some(0),
    );
    assert_eq!(
        full,
        Workspace {
            id: -5,
            name: "n".to_string(),
            monitor: "m".to_string(),
            monitor_id: 2,
            windows: 3,
            has_fullscreen: true,
            last_window: Some("0x0".to_string()),
            last_window_title: Some(String::new()),
            is_persistent: false,
        }
    );
}

#[test]
fn textual_listing_is_read_workspace_by_workspace() {
    let text = "workspace ID 1 (1) on monitor DP-1:\n\
                \tmonitorID: 0\n\
                \twindows: 3\n\
                \thasfullscreen: 0\n\
                \tlastwindow: 0x55d0c0\n\
                \tlastwindowtitle: vim ~/notes\n\
                \tispersistent: 1\n\
                \n\
                workspace ID 12 (mail box) on monitor HDMI-A-1:\r\n\
                \tmonitorID: 1\r\n\
                \twindows: 0\r\n\
                \thasfullscreen: 1\r\n\
                \tlastwindow: 0x0\r\n\
                \tlastwindowtitle: \r\n";
    let first = Workspace {
        id: 1,
        name: "1".to_string(),
        monitor: "DP-1".to_string(),
        monitor_id: 0,
        windows: 3,
        has_fullscreen: false,
        last_window: Some("0x55d0c0".to_string()),
        last_window_title: Some("vim ~/notes".to_string()),
        is_persistent: true,
    };
    let second = Workspace {
        id: 12,
        name: "mail box".to_string(),
        monitor: "HDMI-A-1".to_string(),
        monitor_id: 1,
        windows: 0,
        has_fullscreen: true,
        last_window: None,
        last_window_title: None,
        is_persistent: false,
    };
    assert_eq!(list_workspaces_text(text), vec![first, second]);
}

#[test]
fn textual_listing_skips_what_it_does_not_know() {
    let text = "windows: 9\n\
                some banner\n\
                workspace ID 2 (two) on monitor eDP-1:\n\
                    colour: blue\n\
                    windows: many\n\
                    monitorID: 4 \n\
                not a field\n\
                workspace ID x (bad) on monitor eDP-1:\n\
                    hasfullscreen: 7";
    let mut expected = blank(2, "two", "eDP-1");
    expected.monitor_id = 4;
    expected.has_fullscreen = true;
    assert_eq!(list_workspaces_text(text), vec![expected]);
}

#[test]
fn textual_listing_of_nothing_is_empty() {
    assert_eq!(list_workspaces_text(""), Vec::new());
    assert_eq!(list_workspaces_text("\n\n"), Vec::new());
    assert_eq!(list_workspaces_text("windows: 3\n"), Vec::new());
}

#[test]
fn header_with_a_number_too_large_reads_as_zero() {
    let text = "workspace ID 99999999999999999999 (big) on monitor DP-2:";
    assert_eq!(list_workspaces_text(text), vec![blank(0, "big", "DP-2")]);
}

#[test]
fn header_parts_open_a_workspace() {
    assert_eq!(open_workspace("42", "code", "DP-3"), blank(42, "code", "DP-3"));
    assert_eq!(open_workspace("4 2", "", ""), blank(0, "", ""));
}

#[test]
fn field_lines_fill_the_workspace() {
    let w = set_field(blank(1, "a", "m"), "monitorID", " 3 ");
    assert_eq!(w.monitor_id, 3);
    let w = set_field(w, "windows", "12");
    assert_eq!(w.windows, 12);
    let w = set_field(w, "hasfullscreen", "2");
    assert!(w.has_fullscreen);
    let w = set_field(w, "ispersistent", "true");
    assert!(!w.is_persistent);
    let w = set_field(w, "lastwindow", " 0xabc ");
    assert_eq!(w.last_window, Some("0xabc".to_string()));
    let w = set_field(w, "lastwindow", "0x0");
    assert_eq!(w.last_window, Some("0xabc".to_string()));
    let w = set_field(w, "lastwindowtitle", "  ");
    assert_eq!(w.last_window_title, None);
    let w = set_field(w, "lastwindowtitle", " a title ");
    assert_eq!(w.last_window_title, Some("a title".to_string()));
    let same = set_field(w.clone(), "MonitorID", "9");
    assert_eq!(same, w);
}

#[test]
fn numbers_are_read_or_zero() {
    assert_eq!(read_number("17"), 17);
    assert_eq!(read_number("-17"), -17);
    assert_eq!(read_number("+17"), 17);
    assert_eq!(read_number("9223372036854775807"), i64::MAX);
    assert_eq!(read_number("-9223372036854775808"), i64::MIN);
    assert_eq!(read_number("9223372036854775808"), 0);
    assert_eq!(read_number("-9223372036854775809"), 0);
    assert_eq!(read_number(""), 0);
    assert_eq!(read_number("-"), 0);
    assert_eq!(read_number("1_000"), 0);
    assert_eq!(read_number(" 1"), 0);
    assert_eq!(read_number("0x10"), 0);
}

#[test]
fn trimming_removes_unicode_whitespace() {
    assert_eq!(trimmed("  a b \t\r\n"), "a b");
    assert_eq!(trimmed("\u{2003}x\u{3000}"), "x");
    assert_eq!(trimmed("\u{200b}x"), "\u{200b}x");
    assert_eq!(trimmed(" \u{85} "), "");
    assert_eq!(trimmed(""), "");
    assert_eq!(trimmed("értek "), "értek");
}

#[test]
fn gateway_errors_say_what_failed() {
    let failed = GatewayError::Failed {
        command: strings(&["--batch", "dispatch x"]),
        status: "exit status: 3".to_string(),
        stderr: "bad dispatcher".to_string(),
    };
    assert_eq!(failed.message(), "hyprctl --batch dispatch x exited with exit status: 3: bad dispatcher");
    let unreachable =
        GatewayError::Unreachable { command: strings(&["clients", "-j"]), reason: "not found".to_string() };
    assert_eq!(unreachable.message(), "failed to run hyprctl clients -j: not found");
    let malformed =
        GatewayError::Malformed { command: strings(&["activewindow", "-j"]), reason: "EOF".to_string() };
    assert_eq!(malformed.message(), "invalid JSON from hyprctl activewindow -j: EOF");
}
