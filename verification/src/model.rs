//! Snapshots of what the window manager reports.

use vstd::prelude::*;

verus! {

/// Coordinates or sizes: `(x, y)` or `(w, h)`.
pub type Cords = (i32, i32);

/// The workspace that a window sits on.
#[derive(Debug, Clone, PartialEq, Eq)]
pub struct WorkspaceRef {
    pub id: i64,
    pub name: String,
}

/// One window as reported by the window manager.
#[derive(Debug, PartialEq, Eq)]
pub struct Client {
    pub address: String,
    pub mapped: bool,
    pub hidden: bool,
    pub at: Cords,
    pub size: Cords,
    pub workspace: WorkspaceRef,
    pub floating: bool,
    pub pseudo: bool,
    pub monitor: i64,
    pub class: String,
    pub title: String,
    pub fullscreen: Option<i64>,
    pub xwayland: Option<bool>,
    pub grouped: Option<Vec<String>>,
    pub tags: Option<Vec<String>>,
}

/// The strings of an optional list.
pub open spec fn opt_list(l: Option<Vec<String>>) -> Option<Seq<String>> {
    match l {
        Some(v) => Some(v@),
        None => None,
    }
}

/// Copies an optional list of strings.
fn clone_list(l: &Option<Vec<String>>) -> (r: Option<Vec<String>>)
    ensures
        opt_list(r) == opt_list(*l),
{
    match l {
        Some(v) => {
            let mut out: Vec<String> = Vec::new();
            let mut i: usize = 0;
            while i < v.len()
                invariant
                    i <= v.len(),
                    out@ == v@.take(i as int),
                decreases v.len() - i,
            {
                out.push(v[i].clone());
                proof {
                    assert(v@.take(i + 1) == v@.take(i as int).push(v@[i as int]));
                }
                i = i + 1;
            }
            proof {
                assert(v@.take(v.len() as int) == v@);
            }
            Some(out)
        },
        None => None,
    }
}

impl Clone for Client {
    fn clone(&self) -> (r: Self)
        ensures
            r.address == self.address,
            r.mapped == self.mapped,
            r.hidden == self.hidden,
            r.at == self.at,
            r.size == self.size,
            r.workspace.id == self.workspace.id,
            r.workspace.name == self.workspace.name,
            r.floating == self.floating,
            r.pseudo == self.pseudo,
            r.monitor == self.monitor,
            r.class == self.class,
            r.title == self.title,
            r.fullscreen == self.fullscreen,
            r.xwayland == self.xwayland,
            opt_list(r.grouped) == opt_list(self.grouped),
            opt_list(r.tags) == opt_list(self.tags),
    {
        Client {
            address: self.address.clone(),
            mapped: self.mapped,
            hidden: self.hidden,
            at: self.at,
            size: self.size,
            workspace: WorkspaceRef { id: self.workspace.id, name: self.workspace.name.clone() },
            floating: self.floating,
            pseudo: self.pseudo,
            monitor: self.monitor,
            class: self.class.clone(),
            title: self.title.clone(),
            fullscreen: self.fullscreen,
            xwayland: self.xwayland,
            grouped: clone_list(&self.grouped),
            tags: clone_list(&self.tags),
        }
    }
}

/// The workspace that currently has the focus.
#[derive(Debug, Clone, PartialEq, Eq)]
pub struct ActiveWorkspace {
    pub id: i64,
    pub name: String,
}

/// One entry of the workspace listing.
#[derive(Debug, Clone, PartialEq, Eq)]
pub struct Workspace {
    pub id: i64,
    pub name: String,
    pub monitor: String,
    pub monitor_id: i64,
    pub windows: i64,
    pub has_fullscreen: bool,
    pub last_window: Option<String>,
    pub last_window_title: Option<String>,
    pub is_persistent: bool,
}

/// Mathematical content of a [`Workspace`].
pub ghost struct WorkspaceView {
    pub id: int,
    pub name: Seq<char>,
    pub monitor: Seq<char>,
    pub monitor_id: int,
    pub windows: int,
    pub has_fullscreen: bool,
    pub last_window: Option<Seq<char>>,
    pub last_window_title: Option<Seq<char>>,
    pub is_persistent: bool,
}

/// The characters of an optional string.
pub open spec fn opt_text(s: Option<String>) -> Option<Seq<char>> {
    match s {
        Some(t) => Some(t@),
        None => None,
    }
}

impl View for Workspace {
    type V = WorkspaceView;

    open spec fn view(&self) -> WorkspaceView {
        WorkspaceView {
            id: self.id as int,
            name: self.name@,
            monitor: self.monitor@,
            monitor_id: self.monitor_id as int,
            windows: self.windows as int,
            has_fullscreen: self.has_fullscreen,
            last_window: opt_text(self.last_window),
            last_window_title: opt_text(self.last_window_title),
            is_persistent: self.is_persistent,
        }
    }
}

impl DeepView for Workspace {
    type V = WorkspaceView;

    open spec fn deep_view(&self) -> WorkspaceView {
        self@
    }
}

} // verus!
