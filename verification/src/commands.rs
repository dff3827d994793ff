//! Named actions: the quick-settings popover's buttons, which travel as
//! integer control tags, and the command palette's entries.
use vstd::prelude::*;

verus! {

/// An action of the quick-settings popover.
#[derive(Clone, Copy, Debug, PartialEq, Eq)]
pub enum QuickAction {
    ZoomOut,
    ZoomIn,
    ToggleFocusMode,
    ToggleSidebar,
    ToggleInspector,
    ToggleWrap,
    ToggleAppearance,
    ResetZoom,
    Quit,
    UiZoomOut,
    UiZoomIn,
}

/// The control tag each action is stored under.
pub open spec fn tag_of(a: QuickAction) -> isize {
    match a {
        QuickAction::ZoomOut => 0,
        QuickAction::ZoomIn => 1,
        QuickAction::ToggleFocusMode => 2,
        QuickAction::ToggleSidebar => 3,
        QuickAction::ToggleInspector => 4,
        QuickAction::ToggleWrap => 5,
        QuickAction::ToggleAppearance => 6,
        QuickAction::ResetZoom => 7,
        QuickAction::Quit => 8,
        QuickAction::UiZoomOut => 9,
        QuickAction::UiZoomIn => 10,
    }
}

impl QuickAction {
    /// The integer tag a control carries for this action.
    pub fn tag(self) -> (r: isize)
        ensures
            r == tag_of(self),
    {
        match self {
            QuickAction::ZoomOut => 0,
            QuickAction::ZoomIn => 1,
            QuickAction::ToggleFocusMode => 2,
            QuickAction::ToggleSidebar => 3,
            QuickAction::ToggleInspector => 4,
            QuickAction::ToggleWrap => 5,
            QuickAction::ToggleAppearance => 6,
            QuickAction::ResetZoom => 7,
            QuickAction::Quit => 8,
            QuickAction::UiZoomOut => 9,
            QuickAction::UiZoomIn => 10,
        }
    }

    /// The action a control tag stands for; tags outside `0..=10` stand for
    /// none.
    pub fn from_tag(tag: isize) -> (r: Option<QuickAction>)
        ensures
            r matches Some(a) ==> tag_of(a) == tag,
            r is None <==> !(0 <= tag <= 10),
    {
        match tag {
            0 => Some(QuickAction::ZoomOut),
            1 => Some(QuickAction::ZoomIn),
            2 => Some(QuickAction::ToggleFocusMode),
            3 => Some(QuickAction::ToggleSidebar),
            4 => Some(QuickAction::ToggleInspector),
            5 => Some(QuickAction::ToggleWrap),
            6 => Some(QuickAction::ToggleAppearance),
            7 => Some(QuickAction::ResetZoom),
            8 => Some(QuickAction::Quit),
            9 => Some(QuickAction::UiZoomOut),
            10 => Some(QuickAction::UiZoomIn),
            _ => None,
        }
    }
}

/// Reading back the tag of an action gives the action again, and distinct
/// actions have distinct tags.
pub proof fn lemma_tag_round_trip(a: QuickAction, b: QuickAction)
    ensures
        0 <= tag_of(a) <= 10,
        tag_of(a) == tag_of(b) ==> a == b,
{
}

/// A command palette entry.
#[derive(Clone, Copy, PartialEq, Eq, Debug)]
pub enum Command {
    NewTerminal,
    ToggleSidebar,
    ToggleInspector,
    ToggleSidebarTab,
    TogglePreview,
    ToggleWrap,
    ToggleAppearance,
    Save,
    AddWorkspace,
    RefreshGit,
    Reindex,
}

pub open spec fn title_of(c: Command) -> Seq<char> {
    match c {
        Command::NewTerminal => "Terminal: New Terminal"@,
        Command::ToggleSidebar => "View: Toggle Sidebar"@,
        Command::ToggleInspector => "View: Toggle Inspector"@,
        Command::ToggleSidebarTab => "View: Toggle Explorer and Git"@,
        Command::TogglePreview => "View: Toggle Source and Preview"@,
        Command::ToggleWrap => "View: Toggle Word Wrap"@,
        Command::ToggleAppearance => "View: Toggle Light and Dark"@,
        Command::Save => "File: Save"@,
        Command::AddWorkspace => "Workspace: Add Workspace"@,
        Command::RefreshGit => "Git: Refresh"@,
        Command::Reindex => "Workspace: Rebuild File Index"@,
    }
}

pub open spec fn shortcut_of(c: Command) -> Seq<char> {
    match c {
        Command::NewTerminal => "Cmd-T"@,
        Command::ToggleSidebar => "Cmd-Shift-R"@,
        Command::ToggleInspector => "Cmd-Shift-T"@,
        Command::ToggleSidebarTab => "Cmd-E"@,
        Command::TogglePreview => "Cmd-D"@,
        Command::Save => "Cmd-S"@,
        Command::AddWorkspace => "Cmd-0"@,
        _ => ""@,
    }
}

impl Command {
    /// Every command, in palette order.
    pub fn all() -> (r: Vec<Command>)
        ensures
            r@ == seq![
                Command::NewTerminal,
                Command::ToggleSidebar,
                Command::ToggleInspector,
                Command::ToggleSidebarTab,
                Command::TogglePreview,
                Command::ToggleWrap,
                Command::ToggleAppearance,
                Command::Save,
                Command::AddWorkspace,
                Command::RefreshGit,
                Command::Reindex,
            ],
    {
        vec![
            Command::NewTerminal,
            Command::ToggleSidebar,
            Command::ToggleInspector,
            Command::ToggleSidebarTab,
            Command::TogglePreview,
            Command::ToggleWrap,
            Command::ToggleAppearance,
            Command::Save,
            Command::AddWorkspace,
            Command::RefreshGit,
            Command::Reindex,
        ]
    }

    /// The palette label.
    pub fn title(self) -> (r: &'static str)
        ensures
            r@ == title_of(self),
    {
        match self {
            Command::NewTerminal => "Terminal: New Terminal",
            Command::ToggleSidebar => "View: Toggle Sidebar",
            Command::ToggleInspector => "View: Toggle Inspector",
            Command::ToggleSidebarTab => "View: Toggle Explorer and Git",
            Command::TogglePreview => "View: Toggle Source and Preview",
            Command::ToggleWrap => "View: Toggle Word Wrap",
            Command::ToggleAppearance => "View: Toggle Light and Dark",
            Command::Save => "File: Save",
            Command::AddWorkspace => "Workspace: Add Workspace",
            Command::RefreshGit => "Git: Refresh",
            Command::Reindex => "Workspace: Rebuild File Index",
        }
    }

    /// The key chord shown beside the label; empty when there is none.
    pub fn shortcut(self) -> (r: &'static str)
        ensures
            r@ == shortcut_of(self),
    {
        match self {
            Command::NewTerminal => "Cmd-T",
            Command::ToggleSidebar => "Cmd-Shift-R",
            Command::ToggleInspector => "Cmd-Shift-T",
            Command::ToggleSidebarTab => "Cmd-E",
            Command::TogglePreview => "Cmd-D",
            Command::Save => "Cmd-S",
            Command::AddWorkspace => "Cmd-0",
            _ => "",
        }
    }
}

} // verus!
