//! What can be done with a search result.

use vstd::prelude::*;

use crate::model::SearchResult;

verus! {

/// What can be done with a result.
#[derive(Clone, Copy, Debug, PartialEq, Eq, Structural)]
pub enum ResultAction {
    Open,
    Reveal,
    CopyPath,
}

/// Carries actions out and tells whether they succeeded.
pub trait ResultActionDispatcher {
    fn dispatch(&mut self, action: ResultAction, result: &SearchResult) -> bool;
}

/// What the return key does: it reveals a result with the command key held, and opens it without.
pub fn return_key_action(command_held: bool) -> (action: ResultAction)
    ensures
        action == if command_held {
            ResultAction::Reveal
        } else {
            ResultAction::Open
        },
{
    if command_held {
        ResultAction::Reveal
    } else {
        ResultAction::Open
    }
}

/// The row that an action applies to: the selected one, the first where none is selected, and the
/// last where the selection lies beyond.
pub open spec fn acted_row(selected_row: int, count: int) -> int {
    if selected_row < 0 {
        0
    } else if selected_row < count {
        selected_row
    } else {
        count - 1
    }
}

/// Finds the row that an action applies to.
pub fn selected_index(selected_row: isize, count: usize) -> (index: usize)
    requires
        count > 0,
    ensures
        index == acted_row(selected_row as int, count as int),
        index < count,
{
    if selected_row < 0 {
        0
    } else if (selected_row as usize) < count {
        selected_row as usize
    } else {
        count - 1
    }
}

/// What came of an action.
#[derive(Clone, Copy, Debug, PartialEq, Eq, Structural)]
pub struct ActionOutcome {
    /// Whether it succeeded.
    pub succeeded: bool,
    /// The entry that counts as opened.
    pub opened: Option<u64>,
}

/// What comes of an action on an entry: only a successful opening enters the history.
pub fn action_outcome(action: ResultAction, entry_id: u64, succeeded: bool) -> (outcome:
    ActionOutcome)
    ensures
        outcome.succeeded == succeeded,
        outcome.opened == if succeeded && action == ResultAction::Open {
            Some(entry_id)
        } else {
            None::<u64>
        },
{
    ActionOutcome {
        succeeded,
        opened: if succeeded && action == ResultAction::Open {
            Some(entry_id)
        } else {
            None
        },
    }
}

/// Carries an action out on the selected result: the dispatcher is handed the action and that
/// result, its answer tells whether the action succeeded, and it is left as that call leaves it.
/// Without results nothing is done.
pub fn dispatch_selected<D: ResultActionDispatcher>(
    dispatcher: &mut D,
    action: ResultAction,
    results: &[SearchResult],
    selected_row: isize,
) -> (outcome: ActionOutcome)
    ensures
        results@.len() == 0 ==> !outcome.succeeded && outcome.opened is None && *final(dispatcher)
            == *old(dispatcher),
        results@.len() > 0 ==> outcome.opened == if outcome.succeeded && action
            == ResultAction::Open {
            Some(results@[acted_row(selected_row as int, results@.len() as int)].entry_id)
        } else {
            None::<u64>
        },
        results@.len() > 0 ==> exists|handed: &mut D|
            *handed == *old(dispatcher) && *final(handed) == *final(dispatcher)
                && #[trigger] call_ensures(
                D::dispatch,
                (
                    handed,
                    action,
                    &results@[acted_row(selected_row as int, results@.len() as int)],
                ),
                outcome.succeeded,
            ),
{
    if results.len() == 0 {
        return ActionOutcome { succeeded: false, opened: None };
    }
    let index: usize = selected_index(selected_row, results.len());
    let result = &results[index];
    let succeeded = dispatcher.dispatch(action, result);
    action_outcome(action, result.entry_id, succeeded)
}

/// An action applies to the selected row where there is one, to the first row where nothing is
/// selected, and to the last where the selection lies beyond it.
pub proof fn actions_apply_to_a_row(selected_row: int, count: int)
    requires
        count > 0,
    ensures
        0 <= acted_row(selected_row, count) < count,
        0 <= selected_row < count ==> acted_row(selected_row, count) == selected_row,
        selected_row < 0 ==> acted_row(selected_row, count) == 0,
        selected_row >= count ==> acted_row(selected_row, count) + 1 == count,
{
}

} // verus!
