//! Column/row navigation for a scrolling tiling layout.
//!
//! The library rebuilds a grid of columns and rows from raw window
//! positions and decides which commands to send to the window manager.
//! Everything here is pure: callers fetch the snapshots and perform the
//! dispatch that the library hands back.

pub mod hypr;
pub mod json;
pub mod layout;
pub mod model;
pub mod navigate;
pub mod pattern;
pub mod reference;
pub mod sort;
pub mod text;

pub use layout::{
    clients_on_current_workspace, column_epsilon_from_env, columnize, columnize_active_workspace,
    Column, ColumnRow,
};
pub use model::Cords;
pub use navigate::{
    find_col_row_by_addr, focus_abs_cycle, focus_abs_row, focus_col_row, moveto_abs,
    moveto_abs_row, NavError, Snapshot,
};
pub use reference::{clamp_abs_to_col_index, parse_abs_row, parse_col_row, RefError};
