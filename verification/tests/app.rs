use mamediff::action::{Action, ActionType};
use mamediff::app::{recenter, resized_row_start, scroll_if_need, AppState, TreeCommand};
use mamediff::widget_legend::{BindingSummary, LegendWidget};
use mamediff::terminal::TerminalSize;

#[test]
fn recenter_cycles_center_top_bottom() {
    let size = TerminalSize { rows: 10, cols: 80 };
    let cursor = 20;
    let center = recenter(0, cursor, size);
    assert_eq!(center, 15);
    let top = recenter(center, cursor, size);
    assert_eq!(top, 20);
    let bottom = recenter(top, cursor, size);
    assert_eq!(bottom, 11);
    assert_eq!(recenter(bottom, cursor, size), 15);
}

#[test]
fn recenter_near_the_top_and_on_an_empty_terminal() {
    let size = TerminalSize { rows: 10, cols: 80 };
    assert_eq!(recenter(7, 2, size), 0);
    assert_eq!(recenter(7, 2, TerminalSize { rows: 0, cols: 80 }), 7);
    assert_eq!(recenter(7, 2, TerminalSize { rows: 10, cols: 0 }), 7);
}

#[test]
fn scroll_only_when_the_cursor_leaves_the_screen() {
    assert_eq!(scroll_if_need(10, 12, 5), 10);
    assert_eq!(scroll_if_need(10, 14, 5), 10);
    assert_eq!(scroll_if_need(10, 15, 5), 13);
    assert_eq!(scroll_if_need(10, 9, 5), 7);
    assert_eq!(scroll_if_need(10, 1, 5), 0);
}

#[test]
fn resize_centers_the_cursor() {
    assert_eq!(resized_row_start(30, 20), 20);
    assert_eq!(resized_row_start(3, 20), 0);
}

#[test]
fn action_types_by_name() {
    let names = [
        ("quit", ActionType::Quit),
        ("recenter", ActionType::Recenter),
        ("move-up", ActionType::MoveUp),
        ("move-down", ActionType::MoveDown),
        ("move-left", ActionType::MoveLeft),
        ("move-right", ActionType::MoveRight),
        ("toggle", ActionType::ToggleExpand),
        ("stage", ActionType::Stage),
        ("discard", ActionType::Discard),
        ("unstage", ActionType::Unstage),
        ("toggle-legend", ActionType::ToggleLegend),
        ("init-legend", ActionType::InitLegend),
    ];
    for (name, t) in names {
        assert_eq!(ActionType::from_name(name), Some(t));
    }
    assert_eq!(ActionType::from_name("Quit"), None);
    assert_eq!(ActionType::from_name(""), None);
}

#[test]
fn simple_actions() {
    assert!(matches!(Action::from_simple_type(ActionType::Stage), Some(Action::Stage)));
    assert!(matches!(Action::from_simple_type(ActionType::ToggleExpand), Some(Action::ToggleExpand)));
    assert!(Action::from_simple_type(ActionType::InitLegend).is_none());
}

#[test]
fn app_state_starts_running_at_the_top() {
    let s = AppState::new();
    assert!(!s.exit);
    assert_eq!(s.frame_row_start, 0);
    assert!(!s.legend.hide);
}

#[test]
fn app_state_quit_and_recenter() {
    let size = TerminalSize { rows: 10, cols: 80 };
    let mut s = AppState::new();
    assert!(s.handle_action(Action::Recenter, 20, size).is_none());
    assert_eq!(s.frame_row_start, 15);
    assert!(s.handle_action(Action::Recenter, 20, size).is_none());
    assert_eq!(s.frame_row_start, 20);
    assert!(!s.exit);
    assert!(s.handle_action(Action::Quit, 20, size).is_none());
    assert!(s.exit);
}

#[test]
fn app_state_hands_tree_operations_back() {
    let size = TerminalSize { rows: 10, cols: 80 };
    let mut s = AppState::new();
    let cases = [
        (Action::MoveUp, TreeCommand::CursorUp),
        (Action::MoveDown, TreeCommand::CursorDown),
        (Action::MoveLeft, TreeCommand::CursorLeft),
        (Action::MoveRight, TreeCommand::CursorRight),
        (Action::ToggleExpand, TreeCommand::Toggle),
        (Action::Stage, TreeCommand::Stage),
        (Action::Discard, TreeCommand::Discard),
        (Action::Unstage, TreeCommand::Unstage),
    ];
    for (action, command) in cases {
        assert_eq!(s.handle_action(action, 3, size), Some(command));
        assert_eq!(s.frame_row_start, 0);
        assert!(!s.exit);
    }
}

#[test]
fn app_state_legend_actions() {
    let size = TerminalSize { rows: 10, cols: 80 };
    let mut s = AppState::new();
    s.handle_action(
        Action::InitLegend {
            hide: true,
            label_show: "show".to_string(),
            label_hide: "hide".to_string(),
        },
        0,
        size,
    );
    assert!(s.legend.hide);
    assert_eq!(s.legend.label_show, "show");
    assert_eq!(s.legend.label_hide, "hide");
    s.handle_action(Action::ToggleLegend, 0, size);
    assert!(!s.legend.hide);
    assert_eq!(s.legend.label_show, "show");
}

#[test]
fn app_state_scrolls_only_after_a_move() {
    let mut s = AppState::new();
    s.frame_row_start = 10;
    s.after_tree_command(TreeCommand::CursorDown, false, 30, 5);
    assert_eq!(s.frame_row_start, 10);
    s.after_tree_command(TreeCommand::Toggle, true, 30, 5);
    assert_eq!(s.frame_row_start, 10);
    s.after_tree_command(TreeCommand::CursorDown, true, 12, 5);
    assert_eq!(s.frame_row_start, 10);
    s.after_tree_command(TreeCommand::CursorDown, true, 30, 5);
    assert_eq!(s.frame_row_start, 28);
}

#[test]
fn app_state_resize_centers_the_cursor() {
    let mut s = AppState::new();
    s.on_resize(30, 20);
    assert_eq!(s.frame_row_start, 20);
    s.on_resize(3, 20);
    assert_eq!(s.frame_row_start, 0);
}

#[test]
fn legend_init_and_toggle() {
    let mut w = LegendWidget::new();
    assert!(!w.hide);
    w.init("a".to_string(), "b".to_string(), true);
    assert!(w.hide);
    assert_eq!(w.label_show, "a");
    assert_eq!(w.label_hide, "b");
    w.toggle_hide();
    assert!(!w.hide);
}

fn summary(label: Option<&str>, applicable: bool) -> BindingSummary {
    BindingSummary { label: label.map(|l| l.to_string()), applicable }
}

#[test]
fn legend_title_follows_hide() {
    let mut w = LegendWidget::new();
    w.init("(h)elp".to_string(), "(h)ide".to_string(), false);
    assert_eq!(w.title(), "(h)ide");
    w.toggle_hide();
    assert_eq!(w.title(), "(h)elp");
}

#[test]
fn legend_items_keep_labelled_applicable_bindings() {
    let bindings = vec![
        summary(Some("(q)uit"), true),
        summary(None, true),
        summary(Some("(s)tage"), false),
        summary(Some("(t)oggle"), true),
    ];
    let mut w = LegendWidget::new();
    let items = w.items(&bindings, Some(3));
    let labels: Vec<(&str, bool)> = items.iter().map(|it| (it.label.as_str(), it.highlight)).collect();
    assert_eq!(labels, vec![("(q)uit", false), ("(t)oggle", false)]);

    w.highlight_active = true;
    let items = w.items(&bindings, Some(3));
    let labels: Vec<(&str, bool)> = items.iter().map(|it| (it.label.as_str(), it.highlight)).collect();
    assert_eq!(labels, vec![("(q)uit", false), ("(t)oggle", true)]);

    w.toggle_hide();
    assert!(w.items(&bindings, Some(3)).is_empty());
}

#[test]
fn app_state_keeps_the_legend_highlight() {
    let size = TerminalSize { rows: 10, cols: 80 };
    let mut s = AppState::new();
    s.legend.highlight_active = true;
    s.handle_action(Action::ToggleLegend, 0, size);
    assert!(s.legend.highlight_active);
    s.handle_action(Action::Quit, 0, size);
    assert!(s.legend.highlight_active);
    s.on_resize(5, 10);
    s.after_tree_command(TreeCommand::CursorDown, true, 30, 5);
    assert!(s.legend.highlight_active);
}

#[test]
fn init_legend_defaults_to_shown() {
    match Action::init_legend(None, "s".to_string(), "h".to_string()) {
        Action::InitLegend { hide, label_show, label_hide } => {
            assert!(!hide);
            assert_eq!((label_show.as_str(), label_hide.as_str()), ("s", "h"));
        }
        _ => panic!("not an init-legend action"),
    }
    assert!(matches!(
        Action::init_legend(Some(true), String::new(), String::new()),
        Action::InitLegend { hide: true, .. }
    ));
    assert!(matches!(
        Action::init_legend(Some(false), String::new(), String::new()),
        Action::InitLegend { hide: false, .. }
    ));
}

#[test]
fn toggle_never_scrolls_even_at_the_last_row() {
    let mut s = AppState::new();
    s.frame_row_start = usize::MAX;
    s.after_tree_command(TreeCommand::Toggle, true, 3, 10);
    assert_eq!(s.frame_row_start, usize::MAX);
    s.after_tree_command(TreeCommand::CursorUp, false, 3, 10);
    assert_eq!(s.frame_row_start, usize::MAX);
}
