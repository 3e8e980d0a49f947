//! The actions that key bindings trigger, and their names in the configuration.

use vstd::prelude::*;
use crate::git::str_eq;

verus! {

/// What a key binding does.
#[derive(Debug, Clone)]
pub enum Action {
    Quit,
    Recenter,
    MoveUp,
    MoveDown,
    MoveLeft,
    MoveRight,
    ToggleExpand,
    Stage,
    Discard,
    Unstage,
    ToggleLegend,
    InitLegend { hide: bool, label_show: String, label_hide: String },
}

/// The kinds of action, as the `type` member of an action in the
/// configuration names them.
#[derive(Debug, Clone, Copy, PartialEq, Eq, Structural)]
pub enum ActionType {
    Quit,
    Recenter,
    MoveUp,
    MoveDown,
    MoveLeft,
    MoveRight,
    ToggleExpand,
    Stage,
    Discard,
    Unstage,
    ToggleLegend,
    InitLegend,
}

/// The kind of action that a configuration name stands for.
pub open spec fn action_type_named(name: Seq<char>) -> Option<ActionType> {
    if name == "quit"@ {
        Some(ActionType::Quit)
    } else if name == "recenter"@ {
        Some(ActionType::Recenter)
    } else if name == "move-up"@ {
        Some(ActionType::MoveUp)
    } else if name == "move-down"@ {
        Some(ActionType::MoveDown)
    } else if name == "move-left"@ {
        Some(ActionType::MoveLeft)
    } else if name == "move-right"@ {
        Some(ActionType::MoveRight)
    } else if name == "toggle"@ {
        Some(ActionType::ToggleExpand)
    } else if name == "stage"@ {
        Some(ActionType::Stage)
    } else if name == "discard"@ {
        Some(ActionType::Discard)
    } else if name == "unstage"@ {
        Some(ActionType::Unstage)
    } else if name == "toggle-legend"@ {
        Some(ActionType::ToggleLegend)
    } else if name == "init-legend"@ {
        Some(ActionType::InitLegend)
    } else {
        None
    }
}

impl ActionType {
    /// The kind of action that `name` stands for in the configuration, if any.
    pub fn from_name(name: &str) -> (r: Option<ActionType>)
        ensures
            r == action_type_named(name@),
    {
        if str_eq(name, "quit") {
            Some(ActionType::Quit)
        } else if str_eq(name, "recenter") {
            Some(ActionType::Recenter)
        } else if str_eq(name, "move-up") {
            Some(ActionType::MoveUp)
        } else if str_eq(name, "move-down") {
            Some(ActionType::MoveDown)
        } else if str_eq(name, "move-left") {
            Some(ActionType::MoveLeft)
        } else if str_eq(name, "move-right") {
            Some(ActionType::MoveRight)
        } else if str_eq(name, "toggle") {
            Some(ActionType::ToggleExpand)
        } else if str_eq(name, "stage") {
            Some(ActionType::Stage)
        } else if str_eq(name, "discard") {
            Some(ActionType::Discard)
        } else if str_eq(name, "unstage") {
            Some(ActionType::Unstage)
        } else if str_eq(name, "toggle-legend") {
            Some(ActionType::ToggleLegend)
        } else if str_eq(name, "init-legend") {
            Some(ActionType::InitLegend)
        } else {
            None
        }
    }
}

/// The action of a kind that takes no parameter; `InitLegend` takes its
/// parameters from the configuration and has none here.
pub open spec fn simple_action(t: ActionType) -> Option<Action> {
    match t {
        ActionType::Quit => Some(Action::Quit),
        ActionType::Recenter => Some(Action::Recenter),
        ActionType::MoveUp => Some(Action::MoveUp),
        ActionType::MoveDown => Some(Action::MoveDown),
        ActionType::MoveLeft => Some(Action::MoveLeft),
        ActionType::MoveRight => Some(Action::MoveRight),
        ActionType::ToggleExpand => Some(Action::ToggleExpand),
        ActionType::Stage => Some(Action::Stage),
        ActionType::Discard => Some(Action::Discard),
        ActionType::Unstage => Some(Action::Unstage),
        ActionType::ToggleLegend => Some(Action::ToggleLegend),
        ActionType::InitLegend => None,
    }
}

impl Action {
    /// The action that sets up the legend, as the configuration gives it:
    /// hidden where `hide` says so, shown where `hide` is absent.
    pub fn init_legend(hide: Option<bool>, label_show: String, label_hide: String) -> (r: Action)
        ensures
            r matches Action::InitLegend { hide: h, label_show: s, label_hide: t } && h == (
            hide == Some(true)) && s@ == label_show@ && t@ == label_hide@,
    {
        let h = match hide {
            Some(h) => h,
            None => false,
        };
        Action::InitLegend { hide: h, label_show, label_hide }
    }

    /// The action of a kind that takes no parameter, as `simple_action` gives it.
    pub fn from_simple_type(t: ActionType) -> (r: Option<Action>)
        ensures
            r == simple_action(t),
    {
        match t {
            ActionType::Quit => Some(Action::Quit),
            ActionType::Recenter => Some(Action::Recenter),
            ActionType::MoveUp => Some(Action::MoveUp),
            ActionType::MoveDown => Some(Action::MoveDown),
            ActionType::MoveLeft => Some(Action::MoveLeft),
            ActionType::MoveRight => Some(Action::MoveRight),
            ActionType::ToggleExpand => Some(Action::ToggleExpand),
            ActionType::Stage => Some(Action::Stage),
            ActionType::Discard => Some(Action::Discard),
            ActionType::Unstage => Some(Action::Unstage),
            ActionType::ToggleLegend => Some(Action::ToggleLegend),
            ActionType::InitLegend => None,
        }
    }
}

} // verus!
