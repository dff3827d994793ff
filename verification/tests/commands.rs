use rustelier::commands::{Command, QuickAction};

#[test]
fn quick_action_tags_round_trip() {
    let actions = [
        QuickAction::ZoomOut,
        QuickAction::ZoomIn,
        QuickAction::ToggleFocusMode,
        QuickAction::ToggleSidebar,
        QuickAction::ToggleInspector,
        QuickAction::ToggleWrap,
        QuickAction::ToggleAppearance,
        QuickAction::ResetZoom,
        QuickAction::Quit,
        QuickAction::UiZoomOut,
        QuickAction::UiZoomIn,
    ];

    for action in actions {
        assert_eq!(QuickAction::from_tag(action.tag()), Some(action));
    }
}

#[test]
fn tags_outside_the_table_stand_for_nothing() {
    assert_eq!(QuickAction::from_tag(-1), None);
    assert_eq!(QuickAction::from_tag(11), None);
    assert_eq!(QuickAction::ResetZoom.tag(), 7);
    assert_eq!(QuickAction::from_tag(0), Some(QuickAction::ZoomOut));
}

#[test]
fn palette_lists_every_command_with_its_label() {
    let all = Command::all();
    assert_eq!(all.len(), 11);
    assert_eq!(all[0], Command::NewTerminal);
    assert_eq!(all[0].title(), "Terminal: New Terminal");
    assert_eq!(all[0].shortcut(), "Cmd-T");
    assert_eq!(Command::RefreshGit.title(), "Git: Refresh");
    assert_eq!(Command::RefreshGit.shortcut(), "");
    assert_eq!(Command::Save.shortcut(), "Cmd-S");
}
