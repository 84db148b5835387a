use vstd::prelude::*;
use crate::history::{
    History, delete_by_command, ids_with_command, ids_of_command_exactly,
    lemma_ids_with_command_exact,
};

verus! {

/// Which history the finder shows.
#[derive(Debug, Clone, Copy, PartialEq, Eq, Structural)]
pub enum SearchScope {
    /// All history (Ctrl+T): Ctrl+D deletes only the displayed record.
    Global,
    /// The history of one directory (Ctrl+S): Ctrl+D deletes every record
    /// of that command in the directory.
    Directory,
}

/// The record under the cursor when the finder closed, as far as it is known.
pub struct SelectedRecord {
    pub id: Option<i32>,
    pub command: Option<String>,
}

/// How a finder session ended.
pub enum FinderOutcome {
    /// Esc or Ctrl+C.
    Aborted,
    /// Enter, with the output of each selected item.
    Accepted { outputs: Vec<String> },
    /// Ctrl+D, with the first selected item if there is one.
    DeleteKey { selected: Option<SelectedRecord> },
}

/// What to do after a finder session.
pub enum SearchAction {
    /// Stop without printing anything.
    Finish,
    /// Print these outputs and stop.
    Print { outputs: Vec<String> },
    /// Stop with the error "No history records found.".
    NothingFound,
    /// Delete these records on the server, then open a fresh session.
    DeleteThenRestart { ids: Vec<i32> },
}

/// The message of `SearchAction::NothingFound`.
pub fn nothing_found_message() -> (s: &'static str)
    ensures
        s@ == "No history records found."@,
{
    "No history records found."
}

/// The ids to delete for a Ctrl+D on `selected`.
pub open spec fn ids_to_delete(
    scope: SearchScope,
    selected: Option<SelectedRecord>,
    snapshot: Seq<History>,
) -> Seq<i32> {
    match selected {
        None => seq![],
        Some(sel) => match scope {
            SearchScope::Directory => match sel.command {
                Some(c) => ids_with_command(snapshot, c@),
                None => seq![],
            },
            SearchScope::Global => match sel.id {
                Some(id) => seq![id],
                None => seq![],
            },
        },
    }
}

/// Ctrl+D in the global history deletes exactly the displayed record,
/// whatever its command and whatever has been fetched; in a directory it
/// deletes the records of the selected command that were fetched, all of them
/// and no other.
pub proof fn lemma_delete_key_targets(sel: SelectedRecord, snapshot: Seq<History>)
    ensures
        sel.id matches Some(i) ==> ids_to_delete(SearchScope::Global, Some(sel), snapshot) == seq![
            i,
        ],
        sel.command matches Some(c) ==> ids_of_command_exactly(
            ids_to_delete(SearchScope::Directory, Some(sel), snapshot),
            snapshot,
            c@,
        ),
{
    if sel.command is Some {
        let c = sel.command->0;
        lemma_ids_with_command_exact(snapshot, c@);
        assert(ids_to_delete(SearchScope::Directory, Some(sel), snapshot) == ids_with_command(
            snapshot,
            c@,
        ));
    }
}

/// Decides what follows a finder session, given the records fetched so far.
pub fn search_step(scope: SearchScope, outcome: FinderOutcome, snapshot: Vec<History>) -> (act:
    SearchAction)
    ensures
        match outcome {
            FinderOutcome::Aborted => act is Finish,
            FinderOutcome::Accepted { outputs } => if outputs@.len() == 0 {
                act is NothingFound
            } else {
                act matches SearchAction::Print { outputs: o } && o@ == outputs@
            },
            FinderOutcome::DeleteKey { selected } => act matches SearchAction::DeleteThenRestart {
                ids,
            } && ids@ == ids_to_delete(scope, selected, snapshot@),
        },
{
    match outcome {
        FinderOutcome::Aborted => SearchAction::Finish,
        FinderOutcome::Accepted { outputs } => {
            if outputs.len() == 0 {
                SearchAction::NothingFound
            } else {
                SearchAction::Print { outputs }
            }
        },
        FinderOutcome::DeleteKey { selected } => {
            let ids = match selected {
                None => Vec::new(),
                Some(sel) => match scope {
                    SearchScope::Directory => match sel.command {
                        Some(c) => {
                            let mut records = snapshot;
                            delete_by_command(&mut records, c.as_str())
                        },
                        None => Vec::new(),
                    },
                    SearchScope::Global => match sel.id {
                        Some(id) => {
                            let mut v: Vec<i32> = Vec::new();
                            v.push(id);
                            v
                        },
                        None => Vec::new(),
                    },
                },
            };
            SearchAction::DeleteThenRestart { ids }
        },
    }
}

} // verus!
