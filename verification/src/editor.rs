//! The line editor as a state machine over plain values.
//!
//! [`EditorState`] is what the editor holds; each operation is a function from
//! state to state. The executable editor in [`crate::repl`] is held to these
//! functions, and the laws at the end of this file are proved of them.
use crate::complete::matching;
use vstd::prelude::*;

verus! {

/// What the editor holds at one moment.
#[verifier::ext_equal]
pub struct EditorState {
    /// The name of the program that submitted lines are handed to.
    pub program: Seq<char>,
    /// The line being composed.
    pub buffer: Seq<char>,
    /// The position in `buffer` at which the next character goes in.
    pub cursor: nat,
    /// The submitted lines, oldest first.
    pub history: Seq<Seq<char>>,
    /// The history entry being browsed; `history.len()` while a new line is composed.
    pub history_index: nat,
    /// The candidates of the last completion request.
    pub completions: Seq<Seq<char>>,
}

/// An operation that edits the line in place.
pub enum Edit {
    Left,
    Right,
    Insert(char),
    Backspace,
    Delete,
}

/// The line that ends the session instead of being executed.
pub open spec fn quit_line() -> Seq<char> {
    seq!['q']
}

/// The prompt shown in front of the line.
pub open spec fn prompt_of(program: Seq<char>) -> Seq<char> {
    seq!['('] + program + seq![')', '>', ' ']
}

/// The lines of a history that the completion index holds: all but the empty one.
pub open spec fn indexed_lines(history: Seq<Seq<char>>) -> Set<Seq<char>> {
    history.to_set().filter(|line: Seq<char>| line.len() > 0)
}

impl EditorState {
    /// The state of a new editor.
    pub open spec fn init(program: Seq<char>) -> EditorState {
        EditorState {
            program,
            buffer: Seq::empty(),
            cursor: 0,
            history: Seq::empty(),
            history_index: 0,
            completions: Seq::empty(),
        }
    }

    /// The cursor lies within the line, and the history index within the history
    /// or just behind it.
    pub open spec fn valid(self) -> bool {
        &&& self.cursor <= self.buffer.len()
        &&& self.history_index <= self.history.len()
    }

    /// The cursor moves one to the left, unless it is at the start.
    pub open spec fn left(self) -> EditorState {
        if self.cursor > 0 {
            EditorState { cursor: (self.cursor - 1) as nat, ..self }
        } else {
            self
        }
    }

    /// The cursor moves one to the right, unless it is at the end.
    pub open spec fn right(self) -> EditorState {
        if self.cursor < self.buffer.len() {
            EditorState { cursor: self.cursor + 1, ..self }
        } else {
            self
        }
    }

    /// `c` goes in at the cursor, the cursor moves behind it, and the
    /// completions, which were for the line as it was, go.
    pub open spec fn insert(self, c: char) -> EditorState {
        EditorState {
            buffer: self.buffer.insert(self.cursor as int, c),
            cursor: self.cursor + 1,
            completions: Seq::empty(),
            ..self
        }
    }

    /// The character before the cursor goes, with the completions; at the start
    /// of the line nothing changes.
    pub open spec fn backspace(self) -> EditorState {
        if self.cursor > 0 {
            EditorState {
                buffer: self.buffer.remove(self.cursor - 1),
                cursor: (self.cursor - 1) as nat,
                completions: Seq::empty(),
                ..self
            }
        } else {
            self
        }
    }

    /// The character at the cursor goes, with the completions; at the end of
    /// the line nothing changes.
    pub open spec fn delete(self) -> EditorState {
        if self.cursor < self.buffer.len() {
            EditorState {
                buffer: self.buffer.remove(self.cursor as int),
                completions: Seq::empty(),
                ..self
            }
        } else {
            self
        }
    }

    /// The line becomes a copy of the history entry before the one browsed, with
    /// the cursor at its end; at the oldest entry nothing changes.
    pub open spec fn previous(self) -> EditorState {
        if self.history_index > 0 {
            let index = (self.history_index - 1) as nat;
            let line = self.history[index as int];
            EditorState { buffer: line, cursor: line.len(), history_index: index, ..self }
        } else {
            self
        }
    }

    /// The line becomes a copy of the history entry after the one browsed, with
    /// the cursor at its end; at the newest entry, and behind it, nothing changes.
    pub open spec fn next(self) -> EditorState {
        if self.history_index + 1 < self.history.len() {
            let index = self.history_index + 1;
            let line = self.history[index as int];
            EditorState { buffer: line, cursor: line.len(), history_index: index, ..self }
        } else {
            self
        }
    }

    /// The line joins the history, unless it equals the newest entry, and the
    /// history index goes behind the history.
    pub open spec fn recorded(self) -> EditorState {
        let history = if self.history.len() > 0 && self.history.last() == self.buffer {
            self.history
        } else {
            self.history.push(self.buffer)
        };
        EditorState { history, history_index: history.len(), ..self }
    }

    /// The line, the cursor and the completions are reset.
    pub open spec fn cleared(self) -> EditorState {
        EditorState { buffer: Seq::empty(), cursor: 0, completions: Seq::empty(), ..self }
    }

    /// The state after a line was submitted: recorded, then cleared.
    pub open spec fn submitted(self) -> EditorState {
        self.recorded().cleared()
    }

    /// `list` answers a completion request in this state: the whole history
    /// for an empty line, else the history's lines that start with the line,
    /// each once, in any order.
    pub open spec fn completes(self, list: Seq<Seq<char>>) -> bool {
        if self.buffer.len() == 0 {
            list == self.history
        } else {
            &&& list.no_duplicates()
            &&& list.to_set() == matching(self.history.to_set(), self.buffer)
        }
    }

    /// The state with `list` as its completions.
    pub open spec fn with_completions(self, list: Seq<Seq<char>>) -> EditorState {
        EditorState { completions: list, ..self }
    }

    /// The state after one edit.
    pub open spec fn apply(self, edit: Edit) -> EditorState {
        match edit {
            Edit::Left => self.left(),
            Edit::Right => self.right(),
            Edit::Insert(c) => self.insert(c),
            Edit::Backspace => self.backspace(),
            Edit::Delete => self.delete(),
        }
    }

    /// The state after a sequence of edits, first to last.
    pub open spec fn run(self, edits: Seq<Edit>) -> EditorState
        decreases edits.len(),
    {
        if edits.len() == 0 {
            self
        } else {
            self.run(edits.drop_last()).apply(edits.last())
        }
    }
}

/// An edit keeps a valid state valid and leaves the history, the history index
/// and the program alone.
pub proof fn lemma_apply_keeps(state: EditorState, edit: Edit)
    requires
        state.valid(),
    ensures
        state.apply(edit).valid(),
        state.apply(edit).history == state.history,
        state.apply(edit).history_index == state.history_index,
        state.apply(edit).program == state.program,
{
}

/// Edits keep a valid state valid and leave the history, the history index and
/// the program alone.
pub proof fn lemma_run_keeps(state: EditorState, edits: Seq<Edit>)
    requires
        state.valid(),
    ensures
        state.run(edits).valid(),
        state.run(edits).history == state.history,
        state.run(edits).history_index == state.history_index,
        state.run(edits).program == state.program,
    decreases edits.len(),
{
    if edits.len() > 0 {
        lemma_run_keeps(state, edits.drop_last());
        lemma_apply_keeps(state.run(edits.drop_last()), edits.last());
    }
}

/// From a new editor, after every step of any sequence of cursor moves,
/// insertions and deletions, the cursor lies within the line.
pub proof fn lemma_cursor_in_bounds(program: Seq<char>, edits: Seq<Edit>, steps: int)
    requires
        0 <= steps <= edits.len(),
    ensures
        EditorState::init(program).run(edits.take(steps)).cursor <= EditorState::init(program).run(
            edits.take(steps),
        ).buffer.len(),
{
    lemma_run_keeps(EditorState::init(program), edits.take(steps));
}

/// A line submitted a second time, with nothing submitted in between, is in
/// the history once: the second submission leaves the history as the first
/// left it.
pub proof fn lemma_submit_twice(first: EditorState, second: EditorState)
    requires
        second.history == first.submitted().history,
        second.buffer == first.buffer,
    ensures
        second.submitted().history == first.submitted().history,
        first.submitted().history.last() == first.buffer,
{
}

/// Edits to a line that was reached by going back in the history change a
/// copy: going forward and back again shows the stored line, and the history
/// is as it was. This holds where going forward takes effect, that is, where
/// the browsed entry is not the newest.
pub proof fn lemma_copy_on_browse(state: EditorState, edits: Seq<Edit>)
    requires
        state.valid(),
        0 < state.history_index < state.history.len(),
    ensures
        state.previous().run(edits).next().previous().buffer == state.previous().buffer,
        state.previous().buffer == state.history[state.history_index - 1],
        state.previous().run(edits).next().previous().history == state.history,
{
    lemma_run_keeps(state.previous(), edits);
}

/// Recording a line adds it to the indexed lines, unless it is empty.
pub proof fn lemma_indexed_recorded(state: EditorState)
    ensures
        indexed_lines(state.recorded().history) == if state.buffer.len() > 0 {
            indexed_lines(state.history).insert(state.buffer)
        } else {
            indexed_lines(state.history)
        },
{
    let before = state.history;
    let after = state.recorded().history;
    assert forall|line: Seq<char>| after.contains(line) <==> (before.contains(line) || line
        == state.buffer) by {
        if before.len() > 0 && before.last() == state.buffer {
            assert(before[before.len() - 1] == state.buffer);
        } else {
            vstd::seq_lib::lemma_seq_contains_after_push(before, state.buffer, line);
        }
    }
    if state.buffer.len() > 0 {
        assert(indexed_lines(after) =~= indexed_lines(before).insert(state.buffer));
    } else {
        assert(indexed_lines(after) =~= indexed_lines(before));
    }
}

/// For a line that is not empty, the indexed lines that start with it are the
/// history's lines that start with it.
pub proof fn lemma_matching_indexed(history: Seq<Seq<char>>, line: Seq<char>)
    requires
        line.len() > 0,
    ensures
        matching(indexed_lines(history), line) == matching(history.to_set(), line),
{
    assert(matching(indexed_lines(history), line) =~= matching(history.to_set(), line));
}

} // verus!
