use vstd::prelude::*;

use crate::text::{decimal, digit_text};

verus! {

/// The subcommands of the command line.
#[derive(Clone, Copy, Debug, PartialEq, Eq, Structural)]
pub enum Cli {
    /// Reorder once, then again after each workspace creation and output change.
    Daemon,
    /// Reorder all workspaces to their canonical numbers.
    Reorder,
    /// Change focus to the desired position of the focused group.
    Focus { action: Action },
    /// Move the focused container to the desired position of the focused group.
    Move { action: Action },
    /// Change focus to the desired group, keeping the position.
    FocusGroup { action: Action },
    /// Move the focused container to the desired group, keeping the position.
    MoveGroup { action: Action },
}

/// A direction, or a position (or group) from 1 to 9.
#[derive(Clone, Copy, Debug, PartialEq, Eq, Structural)]
pub enum Action {
    Next,
    Prev,
    Position(i32),
}

/// The word that names an action on the command line, if it has one.
pub open spec fn action_word(a: Action) -> Option<Seq<char>> {
    match a {
        Action::Next => Some("next"@),
        Action::Prev => Some("prev"@),
        Action::Position(p) => if 1 <= p <= 9 { Some(decimal(p as int)) } else { None },
    }
}

/// Every action that the command line accepts, in the order of its help text.
pub open spec fn all_actions() -> Seq<Action> {
    seq![
        Action::Next,
        Action::Prev,
        Action::Position(1),
        Action::Position(2),
        Action::Position(3),
        Action::Position(4),
        Action::Position(5),
        Action::Position(6),
        Action::Position(7),
        Action::Position(8),
        Action::Position(9),
    ]
}

impl Action {
    /// The actions that the command line accepts: the two directions and
    /// the positions 1 to 9.
    pub fn value_variants() -> (r: Vec<Action>)
        ensures
            r@ == all_actions(),
    {
        let mut r = vec![Action::Next, Action::Prev];
        let mut p: i32 = 1;
        while p <= 9
            invariant
                1 <= p <= 10,
                r@ == all_actions().take(p + 1),
            decreases 10 - p,
        {
            r.push(Action::Position(p));
            assert(r@ =~= all_actions().take(p + 2));
            p = p + 1;
        }
        assert(r@ =~= all_actions());
        r
    }

    /// The word for this action: `next`, `prev`, or the digit of a position
    /// from 1 to 9; `None` for any other position.
    pub fn to_possible_value(&self) -> (r: Option<&'static str>)
        ensures
            r matches Some(s) ==> action_word(*self) == Some(s@),
            r is None ==> action_word(*self) is None,
    {
        match self {
            Action::Next => {
                proof { reveal_strlit("next"); }
                Some("next")
            },
            Action::Prev => {
                proof { reveal_strlit("prev"); }
                Some("prev")
            },
            Action::Position(p) => {
                if 1 <= *p && *p <= 9 {
                    Some(digit_text(*p as u64))
                } else {
                    None
                }
            },
        }
    }
}

} // verus!
