//! What is sent to and read from the window manager's control utility.

use crate::json::{
    json_document, json_ints, json_texts, member, member_of, parse_json, row_count,
};
use crate::model::{opt_text, ActiveWorkspace, Workspace, WorkspaceView};
use crate::pattern::{captures, group, group_text, regex_captures};
use crate::text::{
    chars_of, cuts, join_strings, join_with, line_ranges, lines, parse_signed, same_text,
    signed_decimal, trim, trim_range, within,
};
use vstd::prelude::*;
use vstd::string::{StrSliceExecFns, StringExecFns};

verus! {

/// How dispatches are carried out. The mode is chosen once, before the
/// first dispatch, and handed to every function that prepares one.
#[derive(Debug, Clone, Copy, PartialEq, Eq)]
pub struct Gateway {
    /// Whether commands are printed instead of sent.
    pub dry: bool,
}

impl Gateway {
    /// A gateway that sends its commands.
    pub fn new() -> (gw: Gateway)
        ensures
            !gw.dry,
    {
        Gateway { dry: false }
    }
}

/// Switches the dry run on or off.
pub fn set_dry(gw: &mut Gateway, b: bool)
    ensures
        final(gw).dry == b,
{
    gw.dry = b;
}

/// Whether commands are printed instead of sent.
pub fn is_dry(gw: &Gateway) -> (b: bool)
    ensures
        b == gw.dry,
{
    gw.dry
}

/// Why talking to the control utility failed.
#[derive(Debug, Clone, PartialEq, Eq)]
pub enum GatewayError {
    /// The utility could not be started.
    Unreachable { command: Vec<String>, reason: String },
    /// The utility ran and reported a failure.
    Failed { command: Vec<String>, status: String, stderr: String },
    /// The utility answered with something that could not be read.
    Malformed { command: Vec<String>, reason: String },
}

/// What a gateway error says, in words.
pub open spec fn gateway_message(e: GatewayError) -> Seq<char> {
    match e {
        GatewayError::Unreachable { command, reason } => "failed to run hyprctl "@ + join_with(
            command.deep_view(),
            " "@,
        ) + ": "@ + reason@,
        GatewayError::Failed { command, status, stderr } => "hyprctl "@ + join_with(
            command.deep_view(),
            " "@,
        ) + " exited with "@ + status@ + ": "@ + stderr@,
        GatewayError::Malformed { command, reason } => "invalid JSON from hyprctl "@ + join_with(
            command.deep_view(),
            " "@,
        ) + ": "@ + reason@,
    }
}

impl GatewayError {
    /// The error in words: the command that failed, and the exit status
    /// and the utility's own complaint word for word, or the reason.
    pub fn message(&self) -> (r: String)
        ensures
            r@ == gateway_message(*self),
    {
        match self {
            GatewayError::Unreachable { command, reason } => {
                let mut m = "failed to run hyprctl ".to_owned();
                m.append(join_strings(command, " ").as_str());
                m.append(": ");
                m.append(reason.as_str());
                m
            },
            GatewayError::Failed { command, status, stderr } => {
                let mut m = "hyprctl ".to_owned();
                m.append(join_strings(command, " ").as_str());
                m.append(" exited with ");
                m.append(status.as_str());
                m.append(": ");
                m.append(stderr.as_str());
                m
            },
            GatewayError::Malformed { command, reason } => {
                let mut m = "invalid JSON from hyprctl ".to_owned();
                m.append(join_strings(command, " ").as_str());
                m.append(": ");
                m.append(reason.as_str());
                m
            },
        }
    }
}

/// What one run of the control utility gave.
#[derive(Debug, Clone, PartialEq, Eq)]
pub struct Output {
    /// Whether the utility reported success.
    pub success: bool,
    /// Its exit status, in words.
    pub status: String,
    /// What it printed.
    pub stdout: Vec<u8>,
    /// What it printed as complaints.
    pub stderr: String,
}

/// What a run of the utility with the arguments `args` comes to.
/// `launched` is the outcome of starting it: its output, or the reason
/// why it did not start.
pub open spec fn run_outcome(args: Vec<String>, launched: Result<Output, String>) -> Result<
    Output,
    GatewayError,
> {
    match launched {
        Err(reason) => Err(GatewayError::Unreachable { command: args, reason }),
        Ok(out) => if out.success {
            Ok(out)
        } else {
            Err(GatewayError::Failed { command: args, status: out.status, stderr: out.stderr })
        },
    }
}

/// Judges one run of the utility: its output where it reported success,
/// else the error that names the command, the exit status and the
/// utility's own complaint, word for word.
pub fn run(args: Vec<String>, launched: Result<Output, String>) -> (r: Result<Output, GatewayError>)
    ensures
        r == run_outcome(args, launched),
{
    match launched {
        Err(reason) => Err(GatewayError::Unreachable { command: args, reason }),
        Ok(out) => {
            if out.success {
                Ok(out)
            } else {
                Err(GatewayError::Failed { command: args, status: out.status, stderr: out.stderr })
            }
        },
    }
}

/// What the caller is to do with a batch of commands.
#[derive(Debug, Clone, PartialEq, Eq)]
pub enum Dispatch {
    /// Nothing: there is no command to send.
    Nothing,
    /// Dry run: print these lines, one per command, and call nothing.
    Print(Vec<String>),
    /// Run the control utility once, with these arguments.
    Run(Vec<String>),
}

/// Mathematical content of a [`Dispatch`].
pub ghost enum DispatchView {
    Nothing,
    Print(Seq<Seq<char>>),
    Run(Seq<Seq<char>>),
}

impl View for Dispatch {
    type V = DispatchView;

    open spec fn view(&self) -> DispatchView {
        match self {
            Dispatch::Nothing => DispatchView::Nothing,
            Dispatch::Print(lines) => DispatchView::Print(lines.deep_view()),
            Dispatch::Run(args) => DispatchView::Run(args.deep_view()),
        }
    }
}

impl DeepView for Dispatch {
    type V = DispatchView;

    open spec fn deep_view(&self) -> DispatchView {
        self@
    }
}

/// The commands `cmds` as one batch: joined by a semicolon and a space.
pub open spec fn joined(cmds: Seq<Seq<char>>) -> Seq<char> {
    join_with(cmds, "; "@)
}

/// The line that a dry run prints for the command `cmd`.
pub open spec fn dry_line(cmd: Seq<char>) -> Seq<char> {
    "hyprctl "@ + cmd
}

/// What is to be done with the commands `cmds`: in a dry run each is
/// printed on a line of its own; otherwise all are sent as one batch.
pub open spec fn batch_dispatch(dry: bool, cmds: Seq<Seq<char>>) -> DispatchView {
    if dry {
        DispatchView::Print(Seq::new(cmds.len(), |i: int| dry_line(cmds[i])))
    } else {
        DispatchView::Run(seq!["--batch"@, joined(cmds)])
    }
}

/// The commands that a dispatch carries, whatever the mode: the law that
/// a dry run prints what would be sent rests on this.
pub open spec fn carries(d: DispatchView, cmds: Seq<Seq<char>>) -> bool {
    match d {
        DispatchView::Nothing => cmds.len() == 0,
        DispatchView::Print(lines) => lines == Seq::new(cmds.len(), |i: int| dry_line(cmds[i])),
        DispatchView::Run(args) => args == seq!["--batch"@, joined(cmds)],
    }
}

/// Prepares the dispatch of `cmds`: in a dry run one line to print for
/// each command, otherwise a single call that sends all of them as one
/// batch. The commands are the same in both modes.
pub fn run_batch_dispatch(gw: &Gateway, cmds: &Vec<String>) -> (d: Dispatch)
    ensures
        d@ == batch_dispatch(gw.dry, cmds.deep_view()),
        carries(d@, cmds.deep_view()),
        d is Print <==> gw.dry,
{
    let ghost cv = cmds.deep_view();
    if gw.dry {
        let mut lines: Vec<String> = Vec::new();
        let mut i: usize = 0;
        while i < cmds.len()
            invariant
                i <= cmds.len(),
                cv == cmds.deep_view(),
                lines.len() == i,
                forall|k: int| 0 <= k < i ==> (#[trigger] lines[k])@ == dry_line(cv[k]),
            decreases cmds.len() - i,
        {
            let mut line = "hyprctl ".to_owned();
            line.append(cmds[i].as_str());
            lines.push(line);
            i = i + 1;
        }
        proof {
            assert(lines.deep_view() =~= Seq::new(cv.len(), |i: int| dry_line(cv[i])));
        }
        Dispatch::Print(lines)
    } else {
        let batch = join_strings(cmds, "; ");
        let mut args: Vec<String> = Vec::new();
        args.push("--batch".to_owned());
        args.push(batch);
        proof {
            assert(args.deep_view() =~= seq!["--batch"@, joined(cv)]);
        }
        Dispatch::Run(args)
    }
}

/// The command that gives the focus to the window at `addr`.
pub open spec fn focus_command(addr: Seq<char>) -> Seq<char> {
    "dispatch focuswindow address:"@ + addr
}

/// Prepares the dispatch that gives the focus to the window at `addr`:
/// a single command.
pub fn focus_address(gw: &Gateway, addr: &str) -> (d: Dispatch)
    ensures
        d@ == batch_dispatch(gw.dry, seq![focus_command(addr@)]),
{
    let mut cmd = "dispatch focuswindow address:".to_owned();
    cmd.append(addr);
    let mut cmds: Vec<String> = Vec::new();
    cmds.push(cmd);
    proof {
        assert(cmds.deep_view() =~= seq![focus_command(addr@)]);
    }
    run_batch_dispatch(gw, &cmds)
}

/// The command that swaps the current column with its neighbour on the
/// right, or on the left.
pub open spec fn swap_command(right: bool) -> Seq<char> {
    if right {
        "dispatch layoutmsg swapcol r"@
    } else {
        "dispatch layoutmsg swapcol l"@
    }
}

/// The unit swaps that move the current column by `delta` places: as many
/// as `delta` is large, all to the right for a positive `delta`, all to
/// the left for a negative one.
pub open spec fn swap_commands(delta: int) -> Seq<Seq<char>> {
    Seq::new(
        (if delta < 0 {
            -delta
        } else {
            delta
        }) as nat,
        |i: int| swap_command(delta > 0),
    )
}

/// The swaps that move a column by `delta` places are as many as the
/// places, and all go the same way.
pub proof fn lemma_swap_commands(delta: int)
    ensures
        swap_commands(delta).len() == if delta < 0 {
            -delta
        } else {
            delta
        },
        forall|i: int|
            0 <= i < swap_commands(delta).len() ==> #[trigger] swap_commands(delta)[i]
                == swap_command(delta > 0),
{
}

/// What moving the current column by `delta` places asks for: nothing at
/// all for 0, else the unit swaps as one batch.
pub open spec fn swap_dispatch(dry: bool, delta: int) -> DispatchView {
    if delta == 0 {
        DispatchView::Nothing
    } else {
        batch_dispatch(dry, swap_commands(delta))
    }
}

/// Prepares `count` unit swaps of the current column, all to the right
/// or all to the left: nothing for no swap, else one batch.
pub fn swap_columns(gw: &Gateway, right: bool, count: usize) -> (d: Dispatch)
    ensures
        d@ == swap_dispatch(
            gw.dry,
            if right {
                count as int
            } else {
                -(count as int)
            },
        ),
        carries(
            d@,
            swap_commands(
                if right {
                    count as int
                } else {
                    -(count as int)
                },
            ),
        ),
        count == 0 <==> d is Nothing,
{
    if count == 0 {
        return Dispatch::Nothing;
    }
    let ghost delta = if right {
        count as int
    } else {
        -(count as int)
    };
    let mut cmds: Vec<String> = Vec::new();
    let mut i: usize = 0;
    while i < count
        invariant
            i <= count,
            cmds.len() == i,
            forall|k: int| 0 <= k < i ==> (#[trigger] cmds[k])@ == swap_command(right),
        decreases count - i,
    {
        let cmd = if right {
            "dispatch layoutmsg swapcol r".to_owned()
        } else {
            "dispatch layoutmsg swapcol l".to_owned()
        };
        cmds.push(cmd);
        i = i + 1;
    }
    proof {
        assert(cmds.deep_view() =~= swap_commands(delta));
    }
    run_batch_dispatch(gw, &cmds)
}

/// Prepares the swaps that move the current column by `delta` places.
pub fn swapcol_delta(gw: &Gateway, delta: i32) -> (d: Dispatch)
    ensures
        d@ == swap_dispatch(gw.dry, delta as int),
        carries(d@, swap_commands(delta as int)),
        delta == 0 <==> d is Nothing,
{
    if delta > 0 {
        swap_columns(gw, true, delta as usize)
    } else {
        swap_columns(gw, false, (-(delta as i64)) as usize)
    }
}

/// The line that opens a workspace in the textual listing.
pub const HEADER_PATTERN: &'static str =
    r"^workspace ID (?P<id>\d+)\s+\((?P<name>[^)]+)\)\s+on monitor (?P<mon>[^:]+):";

/// An indented `key: value` line of the textual listing.
pub const FIELD_PATTERN: &'static str = r"^\s*(?P<k>\w+):\s*(?P<v>.+)$";

/// The number that `s` writes in decimal, or 0 where it writes none
/// that fits 64 bits.
pub open spec fn number_or_zero(s: Seq<char>) -> int {
    match within(signed_decimal(s), i64::MIN as int, i64::MAX as int) {
        Some(v) => v,
        None => 0,
    }
}

/// Reads a number, or 0 where there is none.
pub fn read_number(s: &str) -> (r: i64)
    ensures
        r == number_or_zero(s@),
{
    let chars = chars_of(s);
    proof {
        assert(chars@.subrange(0, chars@.len() as int) == chars@);
    }
    match parse_signed(&chars, 0, chars.len()) {
        Some(v) => v,
        None => 0,
    }
}

/// `s` without the whitespace around it.
pub fn trimmed(s: &str) -> (r: String)
    ensures
        r@ == trim(s@),
{
    let chars = chars_of(s);
    proof {
        assert(chars@.subrange(0, chars@.len() as int) == chars@);
    }
    let (a, b) = trim_range(&chars, 0, chars.len());
    s.substring_char(a, b).to_owned()
}

/// A workspace of which only the header line has been read.
pub open spec fn header_workspace(id: Seq<char>, name: Seq<char>, monitor: Seq<char>) -> WorkspaceView {
    WorkspaceView {
        id: number_or_zero(id),
        name,
        monitor,
        monitor_id: 0,
        windows: 0,
        has_fullscreen: false,
        last_window: None,
        last_window_title: None,
        is_persistent: false,
    }
}

/// `w` after the line `key: value` has been read.
pub open spec fn with_field(w: WorkspaceView, key: Seq<char>, value: Seq<char>) -> WorkspaceView {
    let v = trim(value);
    if key == "monitorID"@ {
        WorkspaceView { monitor_id: number_or_zero(v), ..w }
    } else if key == "windows"@ {
        WorkspaceView { windows: number_or_zero(v), ..w }
    } else if key == "hasfullscreen"@ {
        WorkspaceView { has_fullscreen: number_or_zero(v) != 0, ..w }
    } else if key == "lastwindow"@ {
        if v != "0x0"@ && v.len() > 0 {
            WorkspaceView { last_window: Some(v), ..w }
        } else {
            w
        }
    } else if key == "lastwindowtitle"@ {
        if v.len() > 0 {
            WorkspaceView { last_window_title: Some(v), ..w }
        } else {
            w
        }
    } else if key == "ispersistent"@ {
        WorkspaceView { is_persistent: number_or_zero(v) != 0, ..w }
    } else {
        w
    }
}

/// Starts a workspace from the three parts of its header line.
pub fn open_workspace(id: &str, name: &str, monitor: &str) -> (w: Workspace)
    ensures
        w@ == header_workspace(id@, name@, monitor@),
{
    Workspace {
        id: read_number(id),
        name: name.to_owned(),
        monitor: monitor.to_owned(),
        monitor_id: 0,
        windows: 0,
        has_fullscreen: false,
        last_window: None,
        last_window_title: None,
        is_persistent: false,
    }
}

/// Stores the value of one `key: value` line in `w`.
pub fn set_field(w: Workspace, key: &str, value: &str) -> (r: Workspace)
    ensures
        r@ == with_field(w@, key@, value@),
{
    let mut w = w;
    let v = trimmed(value);
    if same_text(key, "monitorID") {
        w.monitor_id = read_number(v.as_str());
    } else if same_text(key, "windows") {
        w.windows = read_number(v.as_str());
    } else if same_text(key, "hasfullscreen") {
        w.has_fullscreen = read_number(v.as_str()) != 0;
    } else if same_text(key, "lastwindow") {
        if !same_text(v.as_str(), "0x0") && v.as_str().unicode_len() > 0 {
            w.last_window = Some(v);
        }
    } else if same_text(key, "lastwindowtitle") {
        if v.as_str().unicode_len() > 0 {
            w.last_window_title = Some(v);
        }
    } else if same_text(key, "ispersistent") {
        w.is_persistent = read_number(v.as_str()) != 0;
    }
    w
}

/// The text of group `i` of a match, empty where the group is missing.
pub open spec fn group_or_empty(groups: Seq<Option<Seq<char>>>, i: int) -> Seq<char> {
    match group(groups, i) {
        Some(t) => t,
        None => Seq::empty(),
    }
}

/// Copies the text of group `i` out of a match, empty where it is missing.
pub fn group_string(groups: &Vec<Option<String>>, i: usize) -> (r: String)
    ensures
        r@ == group_or_empty(groups.deep_view(), i as int),
{
    match group_text(groups, i) {
        Some(t) => t,
        None => String::new(),
    }
}

/// What has been read of a textual listing: the workspaces that are
/// complete and the one whose lines are still coming.
pub ghost struct Listing {
    pub done: Seq<WorkspaceView>,
    pub open: Option<WorkspaceView>,
}

/// The workspaces of a listing once the input has ended.
pub open spec fn closed(st: Listing) -> Seq<WorkspaceView> {
    match st.open {
        Some(w) => st.done.push(w),
        None => st.done,
    }
}

/// The listing after one more line. A header line closes the workspace
/// before it and opens the next; a `key: value` line adds to the open
/// workspace; any other line changes nothing.
pub open spec fn after_line(st: Listing, line: Seq<char>) -> Listing {
    match regex_captures(HEADER_PATTERN@, line) {
        Some(g) => Listing {
            done: closed(st),
            open: Some(
                header_workspace(group_or_empty(g, 1), group_or_empty(g, 2), group_or_empty(g, 3)),
            ),
        },
        None => match (regex_captures(FIELD_PATTERN@, line), st.open) {
            (Some(g), Some(w)) => Listing {
                done: st.done,
                open: Some(with_field(w, group_or_empty(g, 1), group_or_empty(g, 2))),
            },
            _ => st,
        },
    }
}

/// The listing after the lines `ls`, read in order.
pub open spec fn after_lines(st: Listing, ls: Seq<Seq<char>>) -> Listing
    decreases ls.len(),
{
    if ls.len() == 0 {
        st
    } else {
        after_line(after_lines(st, ls.drop_last()), ls.last())
    }
}

/// The workspaces that the textual listing `text` describes.
pub open spec fn workspaces_in_text(text: Seq<char>) -> Seq<WorkspaceView> {
    closed(after_lines(Listing { done: Seq::empty(), open: None }, lines(text)))
}

/// Reads the textual workspace listing, the fallback for a listing that
/// did not come as JSON. Fields that are missing or malformed keep their
/// defaults; nothing makes the whole listing fail.
pub fn list_workspaces_text(text: &str) -> (r: Vec<Workspace>)
    ensures
        r.deep_view() == workspaces_in_text(text@),
{
    let chars = chars_of(text);
    let ranges = line_ranges(&chars);
    let ghost ls = lines(text@);
    let mut done: Vec<Workspace> = Vec::new();
    let mut open: Option<Workspace> = None;
    let mut i: usize = 0;
    proof {
        assert(done.deep_view() =~= Seq::<WorkspaceView>::empty());
        assert(ls.take(0) =~= Seq::<Seq<char>>::empty());
    }
    while i < ranges.len()
        invariant
            i <= ranges.len(),
            chars@ == text@,
            ls == lines(text@),
            cuts(chars@, ranges@, ls),
            (Listing { done: done.deep_view(), open: open.deep_view() }) == after_lines(
                (Listing { done: Seq::empty(), open: None }),
                ls.take(i as int),
            ),
        decreases ranges.len() - i,
    {
        let ghost before = Listing { done: done.deep_view(), open: open.deep_view() };
        let (a, b) = ranges[i];
        let line = text.substring_char(a, b);
        proof {
            assert(line@ == ls[i as int]);
            assert(ls.take(i + 1).drop_last() == ls.take(i as int));
            assert(ls.take(i + 1).last() == ls[i as int]);
        }
        match captures(HEADER_PATTERN, line) {
            Some(g) => {
                let ghost old_done = done.deep_view();
                match open {
                    Some(w) => {
                        done.push(w);
                        proof {
                            assert(done.deep_view() =~= old_done.push(w@));
                        }
                    },
                    None => {},
                }
                let id = group_string(&g, 1);
                let name = group_string(&g, 2);
                let monitor = group_string(&g, 3);
                open = Some(open_workspace(id.as_str(), name.as_str(), monitor.as_str()));
            },
            None => {
                match captures(FIELD_PATTERN, line) {
                    Some(g) => {
                        match open {
                            Some(w) => {
                                let key = group_string(&g, 1);
                                let value = group_string(&g, 2);
                                open = Some(set_field(w, key.as_str(), value.as_str()));
                            },
                            None => {
                                open = None;
                            },
                        }
                    },
                    None => {},
                }
            },
        }
        proof {
            assert((Listing { done: done.deep_view(), open: open.deep_view() }) == after_line(
                before,
                ls[i as int],
            ));
        }
        i = i + 1;
    }
    proof {
        assert(ls.take(i as int) == ls);
    }
    let ghost old_done = done.deep_view();
    match open {
        Some(w) => {
            done.push(w);
            proof {
                assert(done.deep_view() =~= old_done.push(w@));
            }
        },
        None => {},
    }
    done
}

/// The number of the workspace that has the focus.
pub fn active_workspace_id(aw: &ActiveWorkspace) -> (id: i64)
    ensures
        id == aw.id,
{
    aw.id
}

/// An optional number, 0 where there is none.
pub open spec fn or_zero(v: Option<i64>) -> int {
    match v {
        Some(n) => n as int,
        None => 0,
    }
}

/// An optional text, empty where there is none.
pub open spec fn or_empty(v: Option<Seq<char>>) -> Seq<char> {
    match v {
        Some(t) => t,
        None => Seq::empty(),
    }
}

/// The workspace that the members of one JSON object describe. A member
/// that is missing or of another type reads as zero, false, empty or absent.
pub open spec fn workspace_of_members(
    id: Option<i64>,
    name: Option<Seq<char>>,
    monitor: Option<Seq<char>>,
    monitor_id: Option<i64>,
    windows: Option<i64>,
    has_fullscreen: Option<i64>,
    last_window: Option<Seq<char>>,
    last_window_title: Option<Seq<char>>,
    is_persistent: Option<i64>,
) -> WorkspaceView {
    WorkspaceView {
        id: or_zero(id),
        name: or_empty(name),
        monitor: or_empty(monitor),
        monitor_id: or_zero(monitor_id),
        windows: or_zero(windows),
        has_fullscreen: or_zero(has_fullscreen) != 0,
        last_window,
        last_window_title,
        is_persistent: or_zero(is_persistent) != 0,
    }
}

/// Builds a workspace from the members found in one JSON object.
pub fn workspace_from_members(
    id: Option<i64>,
    name: Option<String>,
    monitor: Option<String>,
    monitor_id: Option<i64>,
    windows: Option<i64>,
    has_fullscreen: Option<i64>,
    last_window: Option<String>,
    last_window_title: Option<String>,
    is_persistent: Option<i64>,
) -> (w: Workspace)
    ensures
        w@ == workspace_of_members(
            id,
            opt_text(name),
            opt_text(monitor),
            monitor_id,
            windows,
            has_fullscreen,
            opt_text(last_window),
            opt_text(last_window_title),
            is_persistent,
        ),
{
    Workspace {
        id: match id {
            Some(n) => n,
            None => 0,
        },
        name: match name {
            Some(t) => t,
            None => String::new(),
        },
        monitor: match monitor {
            Some(t) => t,
            None => String::new(),
        },
        monitor_id: match monitor_id {
            Some(n) => n,
            None => 0,
        },
        windows: match windows {
            Some(n) => n,
            None => 0,
        },
        has_fullscreen: match has_fullscreen {
            Some(n) => n != 0,
            None => false,
        },
        last_window,
        last_window_title,
        is_persistent: match is_persistent {
            Some(n) => n != 0,
            None => false,
        },
    }
}

/// The workspace that row `i` of a JSON listing describes.
pub open spec fn workspace_in_row(
    ints: Seq<Map<Seq<char>, i64>>,
    texts: Seq<Map<Seq<char>, Seq<char>>>,
    i: int,
) -> WorkspaceView {
    workspace_of_members(
        member(ints, i, "id"@),
        member(texts, i, "name"@),
        member(texts, i, "monitor"@),
        member(ints, i, "monitorID"@),
        member(ints, i, "windows"@),
        member(ints, i, "hasfullscreen"@),
        member(texts, i, "lastwindow"@),
        member(texts, i, "lastwindowtitle"@),
        member(ints, i, "ispersistent"@),
    )
}

/// The workspaces that a JSON listing describes, one per row.
pub open spec fn workspaces_in_json(
    ints: Seq<Map<Seq<char>, i64>>,
    texts: Seq<Map<Seq<char>, Seq<char>>>,
) -> Seq<WorkspaceView> {
    Seq::new(ints.len(), |i: int| workspace_in_row(ints, texts, i))
}

/// Reads the workspaces out of a parsed JSON listing: one per element of
/// the array, none where the document is no array.
pub fn workspaces_from_json(v: &serde_json::Value) -> (r: Vec<Workspace>)
    ensures
        r.deep_view() == workspaces_in_json(json_ints(*v), json_texts(*v)),
{
    let mut out: Vec<Workspace> = Vec::new();
    let n: usize = match row_count(v) {
        Some(n) => n,
        None => 0,
    };
    let mut i: usize = 0;
    while i < n
        invariant
            i <= n,
            n == json_ints(*v).len(),
            out.len() == i,
            forall|k: int|
                0 <= k < i ==> (#[trigger] out[k])@ == workspace_in_row(
                    json_ints(*v),
                    json_texts(*v),
                    k,
                ),
        decreases n - i,
    {
        let w = workspace_from_members(
            member_of(v, i, "id").0,
            member_of(v, i, "name").1,
            member_of(v, i, "monitor").1,
            member_of(v, i, "monitorID").0,
            member_of(v, i, "windows").0,
            member_of(v, i, "hasfullscreen").0,
            member_of(v, i, "lastwindow").1,
            member_of(v, i, "lastwindowtitle").1,
            member_of(v, i, "ispersistent").0,
        );
        out.push(w);
        i = i + 1;
    }
    proof {
        assert(out.deep_view() =~= workspaces_in_json(json_ints(*v), json_texts(*v)));
    }
    out
}

/// The workspaces of a JSON listing given as bytes, or `None` where the
/// bytes are no JSON document.
pub open spec fn workspaces_in_bytes(bytes: Seq<u8>) -> Option<Seq<WorkspaceView>> {
    match json_document(bytes) {
        Some((ints, texts)) => Some(workspaces_in_json(ints, texts)),
        None => None,
    }
}

/// Reads the workspace listing that was asked for as JSON. `stdout` is
/// what the utility printed, `None` where the query itself failed. The
/// result is `None` where the textual listing has to be read instead
/// (see [`list_workspaces_text`]): where the query failed or its output
/// is no JSON document, not where the document lists nothing.
pub fn list_workspaces(stdout: Option<&[u8]>) -> (r: Option<Vec<Workspace>>)
    ensures
        r.deep_view() == match stdout {
            Some(bytes) => workspaces_in_bytes(bytes@),
            None => None,
        },
{
    match stdout {
        Some(bytes) => match parse_json(bytes) {
            Ok(v) => Some(workspaces_from_json(&v)),
            Err(_) => None,
        },
        None => None,
    }
}

} // verus!
