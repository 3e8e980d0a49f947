//! Where the first row of the screen lies on the diff tree: the decisions the
//! application makes when the cursor moves, the user recenters, or the
//! terminal is resized.

use vstd::prelude::*;
use crate::action::Action;
use crate::terminal::TerminalSize;
use crate::widget_legend::LegendWidget;

verus! {

/// `x - y`, or zero where `y` is greater.
pub open spec fn sat_sub(x: int, y: int) -> int {
    if x >= y {
        x - y
    } else {
        0
    }
}

/// The first row that puts the cursor row in the middle of a screen of `rows`
/// rows, or row 0 where the cursor is too close to the top.
pub open spec fn centered_start(cursor_row: int, rows: int) -> int {
    sat_sub(cursor_row, rows / 2)
}

/// The first row after the user asks to recenter: from any other position the
/// screen centers the cursor row; from the centered position it puts the
/// cursor row at the top; from the top it puts the cursor row at the bottom.
/// On an empty terminal nothing moves.
pub open spec fn recentered_start(current: int, cursor_row: int, size: TerminalSize) -> int {
    if size.rows == 0 || size.cols == 0 {
        current
    } else {
        let top = cursor_row;
        let bottom = sat_sub(cursor_row, size.rows - 1);
        let center = centered_start(cursor_row, size.rows as int);
        if current != center && current != top {
            center
        } else if current == center {
            top
        } else {
            bottom
        }
    }
}

/// The first row shown after the user asks to recenter, as
/// `recentered_start` describes.
pub fn recenter(frame_row_start: usize, cursor_row: usize, size: TerminalSize) -> (r: usize)
    ensures
        r == recentered_start(frame_row_start as int, cursor_row as int, size),
{
    if size.is_empty() {
        return frame_row_start;
    }
    let current = frame_row_start;
    let top = cursor_row;
    let bottom = cursor_row.saturating_sub(size.rows - 1);
    let center = cursor_row.saturating_sub(size.rows / 2);
    if current != center && current != top {
        center
    } else if current == center {
        top
    } else {
        bottom
    }
}

/// The first row shown after the cursor moved: unchanged while the cursor row
/// is on the screen, otherwise the row that centers the cursor row.
pub fn scroll_if_need(frame_row_start: usize, cursor_row: usize, terminal_rows: usize) -> (r: usize)
    requires
        frame_row_start + terminal_rows <= usize::MAX,
    ensures
        frame_row_start <= cursor_row < frame_row_start + terminal_rows ==> r == frame_row_start,
        !(frame_row_start <= cursor_row < frame_row_start + terminal_rows) ==> r == centered_start(
            cursor_row as int,
            terminal_rows as int,
        ),
{
    let frame_row_end = frame_row_start + terminal_rows;
    if !(frame_row_start <= cursor_row && cursor_row < frame_row_end) {
        cursor_row.saturating_sub(terminal_rows / 2)
    } else {
        frame_row_start
    }
}

/// The first row shown after the terminal is resized to `rows` rows: the row
/// that centers the cursor row.
pub fn resized_row_start(cursor_row: usize, rows: usize) -> (r: usize)
    ensures
        r == centered_start(cursor_row as int, rows as int),
{
    cursor_row.saturating_sub(rows / 2)
}

/// The operations on the diff tree that actions ask for; the application
/// performs them and reports whether the cursor moved.
#[derive(Debug, Clone, Copy, PartialEq, Eq, Structural)]
pub enum TreeCommand {
    CursorUp,
    CursorDown,
    CursorLeft,
    CursorRight,
    Toggle,
    Stage,
    Discard,
    Unstage,
}

/// The tree operation that an action asks for, if any.
pub open spec fn tree_command_of(action: Action) -> Option<TreeCommand> {
    match action {
        Action::MoveUp => Some(TreeCommand::CursorUp),
        Action::MoveDown => Some(TreeCommand::CursorDown),
        Action::MoveLeft => Some(TreeCommand::CursorLeft),
        Action::MoveRight => Some(TreeCommand::CursorRight),
        Action::ToggleExpand => Some(TreeCommand::Toggle),
        Action::Stage => Some(TreeCommand::Stage),
        Action::Discard => Some(TreeCommand::Discard),
        Action::Unstage => Some(TreeCommand::Unstage),
        _ => None,
    }
}

/// What the application decides on by itself: whether to exit, the first row
/// shown, and the legend.
#[derive(Debug)]
pub struct AppState {
    pub exit: bool,
    pub frame_row_start: usize,
    pub legend: LegendWidget,
}

impl AppState {
    /// The state at start: running, showing from row 0, with a shown legend.
    pub fn new() -> (s: AppState)
        ensures
            !s.exit,
            s.frame_row_start == 0,
            !s.legend.hide,
    {
        AppState { exit: false, frame_row_start: 0, legend: LegendWidget::new() }
    }

    /// Handles an action: quitting, recentering and the legend are decided
    /// here; the tree operations are handed back to be performed.
    pub fn handle_action(&mut self, action: Action, cursor_row: usize, size: TerminalSize) -> (r:
        Option<TreeCommand>)
        ensures
            r == tree_command_of(action),
            final(self).exit == (old(self).exit || action is Quit),
            final(self).frame_row_start == (if action is Recenter {
                recentered_start(old(self).frame_row_start as int, cursor_row as int, size)
            } else {
                old(self).frame_row_start as int
            }),
            final(self).legend.hide == (match action {
                Action::ToggleLegend => !old(self).legend.hide,
                Action::InitLegend { hide: start_hidden, .. } => start_hidden,
                _ => old(self).legend.hide,
            }),
            action matches Action::InitLegend { label_show, label_hide, .. } ==> {
                &&& final(self).legend.label_show@ == label_show@
                &&& final(self).legend.label_hide@ == label_hide@
            },
            !(action is InitLegend) ==> {
                &&& final(self).legend.label_show@ == old(self).legend.label_show@
                &&& final(self).legend.label_hide@ == old(self).legend.label_hide@
            },
            final(self).legend.highlight_active == old(self).legend.highlight_active,
    {
        match action {
            Action::Quit => {
                self.exit = true;
                None
            },
            Action::Recenter => {
                self.frame_row_start = recenter(self.frame_row_start, cursor_row, size);
                None
            },
            Action::MoveUp => Some(TreeCommand::CursorUp),
            Action::MoveDown => Some(TreeCommand::CursorDown),
            Action::MoveLeft => Some(TreeCommand::CursorLeft),
            Action::MoveRight => Some(TreeCommand::CursorRight),
            Action::ToggleExpand => Some(TreeCommand::Toggle),
            Action::Stage => Some(TreeCommand::Stage),
            Action::Discard => Some(TreeCommand::Discard),
            Action::Unstage => Some(TreeCommand::Unstage),
            Action::ToggleLegend => {
                self.legend.toggle_hide();
                None
            },
            Action::InitLegend { hide, label_show, label_hide } => {
                self.legend.init(label_show, label_hide, hide);
                None
            },
        }
    }

    /// Scrolls after a tree operation, where the operation moved the cursor;
    /// expanding or collapsing a node never scrolls.
    pub fn after_tree_command(
        &mut self,
        command: TreeCommand,
        moved: bool,
        cursor_row: usize,
        terminal_rows: usize,
    )
        requires
            (command != TreeCommand::Toggle && moved) ==> old(self).frame_row_start + terminal_rows
                <= usize::MAX,
        ensures
            final(self).exit == old(self).exit,
            final(self).legend.hide == old(self).legend.hide,
            final(self).legend.label_show@ == old(self).legend.label_show@,
            final(self).legend.label_hide@ == old(self).legend.label_hide@,
            final(self).legend.highlight_active == old(self).legend.highlight_active,
            (command == TreeCommand::Toggle || !moved) ==> final(self).frame_row_start == old(
                self,
            ).frame_row_start,
            (command != TreeCommand::Toggle && moved) ==> {
                let start = old(self).frame_row_start;
                &&& start <= cursor_row < start + terminal_rows ==> final(self).frame_row_start
                    == start
                &&& !(start <= cursor_row < start + terminal_rows) ==> final(self).frame_row_start
                    == centered_start(cursor_row as int, terminal_rows as int)
            },
    {
        if command != TreeCommand::Toggle && moved {
            self.frame_row_start = scroll_if_need(self.frame_row_start, cursor_row, terminal_rows);
        }
    }

    /// Centers the cursor row after the terminal is resized to `rows` rows.
    pub fn on_resize(&mut self, cursor_row: usize, rows: usize)
        ensures
            final(self).frame_row_start == centered_start(cursor_row as int, rows as int),
            final(self).exit == old(self).exit,
            final(self).legend.hide == old(self).legend.hide,
            final(self).legend.label_show@ == old(self).legend.label_show@,
            final(self).legend.label_hide@ == old(self).legend.label_hide@,
            final(self).legend.highlight_active == old(self).legend.highlight_active,
    {
        self.frame_row_start = resized_row_start(cursor_row, rows);
    }
}

/// Recentering cycles: from the centered position it moves the cursor row to
/// the top, from the top to the bottom, and from the bottom back to the
/// centered position, where these three positions differ.
pub proof fn law_recenter_cycles(cursor_row: int, size: TerminalSize)
    requires
        0 <= cursor_row,
        size.rows > 0,
        size.cols > 0,
        centered_start(cursor_row, size.rows as int) != cursor_row,
        centered_start(cursor_row, size.rows as int) != sat_sub(cursor_row, size.rows - 1),
        cursor_row != sat_sub(cursor_row, size.rows - 1),
    ensures
        ({
            let center = centered_start(cursor_row, size.rows as int);
            let top = cursor_row;
            let bottom = sat_sub(cursor_row, size.rows - 1);
            &&& recentered_start(center, cursor_row, size) == top
            &&& recentered_start(top, cursor_row, size) == bottom
            &&& recentered_start(bottom, cursor_row, size) == center
        }),
{
}

/// What a recenter gives, by where the screen starts: on an empty terminal
/// nothing moves; otherwise, from anywhere but the centered position and the
/// top position the cursor row is centered (half the rows above it, or as
/// many as there are), from the centered position it goes to the top, and from
/// the top (where that is not also the centered position) to the bottom.
pub proof fn law_recenter_by_position(current: int, cursor_row: int, size: TerminalSize)
    requires
        0 <= cursor_row,
    ensures
        (size.rows == 0 || size.cols == 0) ==> recentered_start(current, cursor_row, size)
            == current,
        ({
            let half = size.rows as int / 2;
            let center = if cursor_row >= half {
                cursor_row - half
            } else {
                0
            };
            let bottom = if cursor_row >= size.rows - 1 {
                cursor_row - (size.rows - 1)
            } else {
                0
            };
            size.rows > 0 && size.cols > 0 ==> {
                &&& (current != center && current != cursor_row) ==> recentered_start(
                    current,
                    cursor_row,
                    size,
                ) == center
                &&& current == center ==> recentered_start(current, cursor_row, size)
                    == cursor_row
                &&& (current != center && current == cursor_row) ==> recentered_start(
                    current,
                    cursor_row,
                    size,
                ) == bottom
            }
        }),
{
}

/// After recentering on a terminal that is not empty, the cursor row is on
/// the screen.
pub proof fn law_recenter_keeps_cursor_visible(current: int, cursor_row: int, size: TerminalSize)
    requires
        0 <= cursor_row,
        size.rows > 0,
        size.cols > 0,
    ensures
        recentered_start(current, cursor_row, size) <= cursor_row < recentered_start(
            current,
            cursor_row,
            size,
        ) + size.rows,
{
}

/// After the cursor moves and the screen scrolls if needed, the cursor row is
/// on the screen, if the screen has any row.
pub proof fn law_scroll_keeps_cursor_visible(frame_row_start: int, cursor_row: int, rows: int)
    requires
        0 <= frame_row_start,
        0 <= cursor_row,
        rows > 0,
    ensures
        ({
            let start = if frame_row_start <= cursor_row < frame_row_start + rows {
                frame_row_start
            } else {
                centered_start(cursor_row, rows)
            };
            start <= cursor_row < start + rows
        }),
{
}

} // verus!
