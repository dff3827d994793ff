pub mod commands;
pub mod diff;
pub mod editor;
pub mod explorer;
pub mod file_index;
pub mod fs_tree;
pub mod git;
pub mod git_panel;
pub mod labels;
pub mod highlight;
pub mod inspector;
pub mod markdown;
pub mod material_icons;
pub mod mcp;
pub mod overlay;
pub mod paths;
pub mod rail;
pub mod repository_search;
pub mod search;
pub mod session;
pub mod status_bar;
pub mod tabs;
pub mod terminal_input;
pub mod terminal_search;
pub mod text;
pub mod watch;
pub mod workspace;

use vstd::prelude::*;

verus! {

/// Always true; the default for preferences that start enabled.
pub fn default_true() -> (r: bool)
    ensures
        r,
{
    true
}

} // verus!
