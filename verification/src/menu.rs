//! The menu's actions and the parsing of a user's one-character selection.

use vstd::prelude::*;

use crate::text::trim;
use crate::text::trim_str;
use crate::todo_error::{no_such_action_msg, not_a_char_msg, TodoError};

verus! {

/// Everything the menu can ask the store or the program to do.
#[derive(Clone, Copy, PartialEq, Eq, Structural, Debug)]
pub enum MenuAction {
    ListIncompleteItems,
    CreateItem,
    MarkItemComplete,
    ListCompletedItems,
    ListAllItems,
    Quit,
}

/// A menu entry: the action and the character that selects it.
#[derive(Clone, Copy, PartialEq, Eq, Structural, Debug)]
pub struct MenuItem {
    pub action: MenuAction,
    pub selection: char,
}

/// The action selected by a character, if any.
pub open spec fn action_of(c: char) -> Option<MenuAction> {
    if c == 'i' {
        Some(MenuAction::ListIncompleteItems)
    } else if c == 'a' {
        Some(MenuAction::ListAllItems)
    } else if c == 'h' {
        Some(MenuAction::ListCompletedItems)
    } else if c == 'n' {
        Some(MenuAction::CreateItem)
    } else if c == 'c' {
        Some(MenuAction::MarkItemComplete)
    } else if c == 'q' {
        Some(MenuAction::Quit)
    } else {
        None
    }
}

impl MenuItem {
    /// Reads a menu selection: the trimmed input must be a single character,
    /// and that character must select one of the menu's actions.
    pub fn parse_user_selection(input: &String) -> (r: Result<MenuItem, TodoError>)
        ensures
            trim(input@).len() != 1 ==> r is Err && r->Err_0.message@ == not_a_char_msg(),
            trim(input@).len() == 1 && action_of(trim(input@)[0]) is None ==> r is Err
                && r->Err_0.message@ == no_such_action_msg(),
            trim(input@).len() == 1 && action_of(trim(input@)[0]) is Some ==> r is Ok
                && r->Ok_0.action == action_of(trim(input@)[0])->Some_0 && r->Ok_0.selection == trim(
                input@,
            )[0],
    {
        let t = trim_str(input.as_str());
        if t.unicode_len() != 1 {
            return Err(TodoError::new_from_msg(String::from_str(
                "Input must be a single character.",
            )));
        }
        let c = t.get_char(0);
        if c == 'i' {
            Ok(MenuItem { action: MenuAction::ListIncompleteItems, selection: c })
        } else if c == 'a' {
            Ok(MenuItem { action: MenuAction::ListAllItems, selection: c })
        } else if c == 'h' {
            Ok(MenuItem { action: MenuAction::ListCompletedItems, selection: c })
        } else if c == 'n' {
            Ok(MenuItem { action: MenuAction::CreateItem, selection: c })
        } else if c == 'c' {
            Ok(MenuItem { action: MenuAction::MarkItemComplete, selection: c })
        } else if c == 'q' {
            Ok(MenuItem { action: MenuAction::Quit, selection: c })
        } else {
            Err(TodoError::new_from_msg(String::from_str(
                "A valid menu action must be selected.",
            )))
        }
    }
}

} // verus!
