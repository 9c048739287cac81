//! The line editor: a buffer with a cursor, a history to browse, and
//! completions drawn from an index of the history.
//!
//! Every operation is held to the state machine of [`crate::editor`]. Reading
//! keys, drawing a [`Frame`] and running a submitted line are left to the caller.
use crate::complete::lines;
use crate::editor::{indexed_lines, prompt_of, quit_line, EditorState};
use crate::editor::{lemma_indexed_recorded, lemma_matching_indexed};
use crate::words::{builder_new, builder_push, builder_search, builder_words};
use vstd::prelude::*;
use vstd::string::StrSliceExecFns;

verus! {

/// Which character a deletion takes.
#[derive(Debug, Clone, Copy)]
pub enum Deletion {
    /// The one before the cursor.
    Bs,
    /// The one at the cursor.
    Del,
}

/// A key as the editor understands it.
#[derive(Debug, Clone, Copy)]
pub enum Key {
    Char(char),
    Left,
    Right,
    Up,
    Down,
    Backspace,
    Delete,
    Tab,
    Enter,
    Other,
}

/// What the caller has to do after a key was handled.
#[derive(Debug)]
pub enum Outcome {
    /// Draw the editor again.
    Redraw,
    /// Run the program on this line, show what it prints, then draw again.
    Execute(Vec<char>),
    /// End the session.
    Quit,
    /// The key means nothing to the editor: show it as unhandled.
    Unhandled,
}

/// What there is to draw.
#[derive(Debug)]
pub struct Frame {
    /// The prompt, in front of the line.
    pub prompt_text: Vec<char>,
    /// The line being composed.
    pub buffer_text: Vec<char>,
    /// The column of the cursor, counted from the start of the prompt.
    pub cursor_column: usize,
    /// The completions, one for each line below the prompt.
    pub completion_lines: Vec<Vec<char>>,
}

/// The line editor.
pub struct Repl {
    arg: String,
    buffer: Vec<char>,
    cursor: usize,
    history: Vec<Vec<char>>,
    history_index: usize,
    trie: trie_rs::TrieBuilder<char>,
    completion: Vec<Vec<char>>,
}

impl View for Repl {
    type V = EditorState;

    closed spec fn view(&self) -> EditorState {
        EditorState {
            program: self.arg@,
            buffer: self.buffer@,
            cursor: self.cursor as nat,
            history: lines(self.history@),
            history_index: self.history_index as nat,
            completions: lines(self.completion@),
        }
    }
}

/// Whether two lines hold the same characters.
pub fn same_line(a: &Vec<char>, b: &Vec<char>) -> (same: bool)
    ensures
        same == (a@ == b@),
{
    if a.len() != b.len() {
        return false;
    }
    let mut i: usize = 0;
    while i < a.len()
        invariant
            i <= a@.len(),
            a@.len() == b@.len(),
            a@.take(i as int) == b@.take(i as int),
        decreases a@.len() - i,
    {
        if a[i] != b[i] {
            proof {
                assert(a@[i as int] != b@[i as int]);
            }
            return false;
        }
        i += 1;
        proof {
            assert(a@.take(i as int) =~= a@.take(i - 1).push(a@[i - 1]));
            assert(b@.take(i as int) =~= b@.take(i - 1).push(b@[i - 1]));
        }
    }
    proof {
        assert(a@.take(i as int) =~= a@);
        assert(b@.take(i as int) =~= b@);
    }
    true
}

/// A copy of a list of lines.
pub fn copy_lines(list: &Vec<Vec<char>>) -> (copy: Vec<Vec<char>>)
    ensures
        lines(copy@) == lines(list@),
{
    let mut copy: Vec<Vec<char>> = Vec::new();
    let mut i: usize = 0;
    while i < list.len()
        invariant
            i <= list@.len(),
            lines(copy@) == lines(list@.take(i as int)),
        decreases list@.len() - i,
    {
        let ghost before = copy@;
        let line = list[i].clone();
        proof {
            assert(line@ =~= list@[i as int]@);
        }
        copy.push(line);
        i += 1;
        proof {
            assert(list@.take(i as int) =~= list@.take(i - 1).push(list@[i - 1]));
            assert(lines(copy@) =~= lines(before).push(line@));
            assert(lines(list@.take(i as int)) =~= lines(list@.take(i - 1)).push(line@));
        }
    }
    proof {
        assert(list@.take(i as int) =~= list@);
    }
    copy
}

impl Repl {
    /// The words in the completion index.
    pub closed spec fn index(&self) -> Set<Seq<char>> {
        builder_words(self.trie)
    }

    /// The state is valid, and the completion index holds exactly the lines
    /// of the history that are not empty.
    pub open spec fn wf(&self) -> bool {
        &&& self@.valid()
        &&& self.index() == indexed_lines(self@.history)
    }

    /// A new editor for the program `arg`: nothing typed, nothing submitted.
    pub fn new(arg: String) -> (repl: Self)
        ensures
            repl.wf(),
            repl@ == EditorState::init(arg@),
    {
        let repl = Repl {
            arg,
            buffer: Vec::new(),
            cursor: 0,
            history: Vec::new(),
            history_index: 0,
            trie: builder_new(),
            completion: Vec::new(),
        };
        proof {
            assert(repl@ =~= EditorState::init(arg@));
            assert(indexed_lines(repl@.history) =~= Set::<Seq<char>>::empty());
        }
        repl
    }

    /// The name of the program.
    pub fn arg(&self) -> (arg: &String)
        ensures
            arg@ == self@.program,
    {
        &self.arg
    }

    /// The line being composed.
    pub fn buffer(&self) -> (buffer: &Vec<char>)
        ensures
            buffer@ == self@.buffer,
    {
        &self.buffer
    }

    /// The position of the cursor in the line.
    pub fn cursor(&self) -> (cursor: usize)
        ensures
            cursor == self@.cursor,
    {
        self.cursor
    }

    /// The submitted lines, oldest first.
    pub fn history(&self) -> (history: &Vec<Vec<char>>)
        ensures
            lines(history@) == self@.history,
    {
        &self.history
    }

    /// The history entry being browsed, or the length of the history.
    pub fn history_index(&self) -> (index: usize)
        ensures
            index == self@.history_index,
    {
        self.history_index
    }

    /// The candidates of the last completion request.
    pub fn completion(&self) -> (completion: &Vec<Vec<char>>)
        ensures
            lines(completion@) == self@.completions,
    {
        &self.completion
    }

    /// Resets the line, the cursor and the completions.
    pub fn clear(&mut self)
        requires
            old(self).wf(),
        ensures
            final(self).wf(),
            final(self)@ == old(self)@.cleared(),
    {
        self.cursor = 0;
        self.buffer = Vec::new();
        self.completion = Vec::new();
        proof {
            assert(self@ =~= old(self)@.cleared());
        }
    }

    /// Moves the cursor one to the left, unless it is at the start.
    pub fn left(&mut self)
        requires
            old(self).wf(),
        ensures
            final(self).wf(),
            final(self)@ == old(self)@.left(),
    {
        if self.cursor > 0 {
            self.cursor -= 1;
        }
        proof {
            assert(self@ =~= old(self)@.left());
        }
    }

    /// Moves the cursor one to the right, unless it is at the end.
    pub fn right(&mut self)
        requires
            old(self).wf(),
        ensures
            final(self).wf(),
            final(self)@ == old(self)@.right(),
    {
        if self.cursor < self.buffer.len() {
            self.cursor += 1;
        }
        proof {
            assert(self@ =~= old(self)@.right());
        }
    }

    /// Puts `ch` in at the cursor and moves the cursor behind it. The
    /// completions go.
    pub fn insert(&mut self, ch: char)
        requires
            old(self).wf(),
        ensures
            final(self).wf(),
            final(self)@ == old(self)@.insert(ch),
    {
        self.buffer.insert(self.cursor, ch);
        proof {
            assert(self.cursor < self.buffer.len());
        }
        self.cursor += 1;
        self.completion = Vec::new();
        proof {
            assert(self@ =~= old(self)@.insert(ch));
        }
    }

    /// Takes out the character before the cursor or the one at it. Where there
    /// is none, nothing changes; else the completions go.
    pub fn delete(&mut self, mode: Deletion)
        requires
            old(self).wf(),
        ensures
            final(self).wf(),
            final(self)@ == match mode {
                Deletion::Bs => old(self)@.backspace(),
                Deletion::Del => old(self)@.delete(),
            },
    {
        match mode {
            Deletion::Del => {
                if self.cursor < self.buffer.len() {
                    self.buffer.remove(self.cursor);
                    self.completion = Vec::new();
                }
                proof {
                    assert(self@ =~= old(self)@.delete());
                }
            },
            Deletion::Bs => {
                if self.cursor > 0 {
                    self.cursor -= 1;
                    self.buffer.remove(self.cursor);
                    self.completion = Vec::new();
                }
                proof {
                    assert(self@ =~= old(self)@.backspace());
                }
            },
        }
    }

    /// Appends the line to the history and to the completion index, unless it
    /// equals the newest entry, and puts the history index behind the history.
    pub fn add_history(&mut self)
        requires
            old(self).wf(),
        ensures
            final(self).wf(),
            final(self)@ == old(self)@.recorded(),
    {
        let count = self.history.len();
        let repeated = count > 0 && same_line(&self.history[count - 1], &self.buffer);
        if !repeated {
            self.history.push(self.buffer.clone());
            if self.buffer.len() > 0 {
                builder_push(&mut self.trie, &self.buffer);
            }
        }
        self.history_index = self.history.len();
        proof {
            lemma_indexed_recorded(old(self)@);
            assert(self@ =~= old(self)@.recorded());
        }
    }

    /// Goes back one entry in the history: the line becomes a copy of it, with
    /// the cursor at its end. At the oldest entry nothing changes.
    pub fn previous(&mut self)
        requires
            old(self).wf(),
        ensures
            final(self).wf(),
            final(self)@ == old(self)@.previous(),
    {
        if self.history_index > 0 {
            self.history_index -= 1;
            self.buffer = self.history[self.history_index].clone();
            self.cursor = self.buffer.len();
        }
        proof {
            assert(self@ =~= old(self)@.previous());
        }
    }

    /// Goes forward one entry in the history: the line becomes a copy of it,
    /// with the cursor at its end. At the newest entry nothing changes.
    pub fn next(&mut self)
        requires
            old(self).wf(),
        ensures
            final(self).wf(),
            final(self)@ == old(self)@.next(),
    {
        if self.history_index < self.history.len() && self.history_index + 1 < self.history.len() {
            self.history_index += 1;
            self.buffer = self.history[self.history_index].clone();
            self.cursor = self.buffer.len();
        }
        proof {
            assert(self@ =~= old(self)@.next());
        }
    }

    /// Answers a completion request: for an empty line the whole history, else
    /// the lines of the history that start with the line, each once.
    pub fn complete(&mut self)
        requires
            old(self).wf(),
        ensures
            final(self).wf(),
            old(self)@.completes(final(self)@.completions),
            final(self)@ == old(self)@.with_completions(final(self)@.completions),
    {
        if self.buffer.len() == 0 {
            self.completion = copy_lines(&self.history);
        } else {
            self.completion = builder_search(&self.trie, &self.buffer);
            proof {
                lemma_matching_indexed(self@.history, self@.buffer);
            }
        }
        proof {
            assert(self@ =~= old(self)@.with_completions(self@.completions));
        }
    }

    /// What there is to draw: the prompt, the line, the column of the cursor
    /// and the completions. Nothing changes.
    pub fn render(&self) -> (frame: Frame)
        requires
            self.wf(),
            prompt_of(self@.program).len() + self@.cursor <= usize::MAX,
        ensures
            frame.prompt_text@ == prompt_of(self@.program),
            frame.buffer_text@ == self@.buffer,
            frame.cursor_column == prompt_of(self@.program).len() + self@.cursor,
            lines(frame.completion_lines@) == self@.completions,
    {
        let name = self.arg.as_str();
        let count = name.unicode_len();
        let mut prompt: Vec<char> = Vec::new();
        prompt.push('(');
        let mut i: usize = 0;
        while i < count
            invariant
                i <= count,
                count == name@.len(),
                prompt@ == seq!['('] + name@.take(i as int),
            decreases count - i,
        {
            prompt.push(name.get_char(i));
            i += 1;
            proof {
                assert(name@.take(i as int) =~= name@.take(i - 1).push(name@[i - 1]));
                assert(prompt@ =~= seq!['('] + name@.take(i as int));
            }
        }
        prompt.push(')');
        prompt.push('>');
        prompt.push(' ');
        proof {
            assert(name@.take(i as int) =~= name@);
            assert(prompt@ =~= prompt_of(self@.program));
        }
        let cursor_column = prompt.len() + self.cursor;
        Frame {
            prompt_text: prompt,
            buffer_text: self.buffer.clone(),
            cursor_column,
            completion_lines: copy_lines(&self.completion),
        }
    }

    /// Whether the line is the one that ends the session.
    pub fn is_quit(&self) -> (quit: bool)
        ensures
            quit == (self@.buffer == quit_line()),
    {
        let quit = self.buffer.len() == 1 && self.buffer[0] == 'q';
        proof {
            if quit {
                assert(self.buffer@ =~= quit_line());
            }
        }
        quit
    }

    /// Submits the line. The quit line ends the session and changes nothing.
    /// Any other line is recorded and handed back to be executed, and the line,
    /// the cursor and the completions are reset.
    pub fn submit(&mut self) -> (outcome: Outcome)
        requires
            old(self).wf(),
        ensures
            final(self).wf(),
            old(self)@.buffer == quit_line() ==> outcome is Quit && final(self)@ == old(self)@,
            old(self)@.buffer != quit_line() ==> final(self)@ == old(self)@.submitted() && (
            match outcome {
                Outcome::Execute(line) => line@ == old(self)@.buffer,
                _ => false,
            }),
    {
        if self.is_quit() {
            return Outcome::Quit;
        }
        self.add_history();
        let line = self.buffer.clone();
        self.clear();
        Outcome::Execute(line)
    }

    /// Handles one key: a character goes into the line, the arrows move the
    /// cursor or browse the history, the two deletion keys delete, the
    /// tabulator asks for completions, and enter submits. Any other key is
    /// handed back as unhandled and changes nothing.
    pub fn handle(&mut self, key: Key) -> (outcome: Outcome)
        requires
            old(self).wf(),
        ensures
            final(self).wf(),
            match key {
                Key::Char(c) => final(self)@ == old(self)@.insert(c) && outcome is Redraw,
                Key::Left => final(self)@ == old(self)@.left() && outcome is Redraw,
                Key::Right => final(self)@ == old(self)@.right() && outcome is Redraw,
                Key::Up => final(self)@ == old(self)@.previous() && outcome is Redraw,
                Key::Down => final(self)@ == old(self)@.next() && outcome is Redraw,
                Key::Backspace => final(self)@ == old(self)@.backspace() && outcome is Redraw,
                Key::Delete => final(self)@ == old(self)@.delete() && outcome is Redraw,
                Key::Tab => {
                    &&& old(self)@.completes(final(self)@.completions)
                    &&& final(self)@ == old(self)@.with_completions(final(self)@.completions)
                    &&& outcome is Redraw
                },
                Key::Enter => if old(self)@.buffer == quit_line() {
                    final(self)@ == old(self)@ && outcome is Quit
                } else {
                    final(self)@ == old(self)@.submitted() && (match outcome {
                        Outcome::Execute(line) => line@ == old(self)@.buffer,
                        _ => false,
                    })
                },
                Key::Other => final(self)@ == old(self)@ && outcome is Unhandled,
            },
    {
        match key {
            Key::Char(c) => {
                self.insert(c);
                Outcome::Redraw
            },
            Key::Left => {
                self.left();
                Outcome::Redraw
            },
            Key::Right => {
                self.right();
                Outcome::Redraw
            },
            Key::Up => {
                self.previous();
                Outcome::Redraw
            },
            Key::Down => {
                self.next();
                Outcome::Redraw
            },
            Key::Backspace => {
                self.delete(Deletion::Bs);
                Outcome::Redraw
            },
            Key::Delete => {
                self.delete(Deletion::Del);
                Outcome::Redraw
            },
            Key::Tab => {
                self.complete();
                Outcome::Redraw
            },
            Key::Enter => self.submit(),
            Key::Other => Outcome::Unhandled,
        }
    }
}

} // verus!
