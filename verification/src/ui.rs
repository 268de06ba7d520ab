//! Small verified pieces of the interface layer: the single-line text
//! input, the command prompt's parsing and the transient message panel.
//! Raw key decoding and drawing stay outside the crate; they talk to these
//! types through plain [`Action`] values.

use vstd::prelude::*;
use vstd::string::*;
use crate::content::chars_to_string;
use crate::event::Dir;

verus! {

/// A context-free interface action, decoded from a raw key event by the
/// terminal layer.
#[derive(Clone, Debug)]
pub enum Action {
    Char(char),
    Backspace,
    Move(Dir),
    Cancel,
    Go,
    Quit,
    OpenPrompt,
    Show(String),
}

/// Marker for an element response that may ask to close its element.
pub struct CanEnd;

/// A single-line editable text input with its own cursor.
pub struct Input {
    pub text: Vec<char>,
    pub cursor: usize,
    pub preamble: String,
}

impl Input {
    /// An input is well-formed when its cursor lies within its text.
    pub open spec fn wf(&self) -> bool {
        self.cursor <= self.text@.len()
    }

    /// The entered text.
    pub fn get_text(&self) -> (r: String)
        ensures
            r@ == self.text@,
    {
        chars_to_string(&self.text)
    }

    /// Apply one action: printable characters are inserted at the cursor,
    /// backspace (the `'\x08'` character) removes the character before it,
    /// and sideways movement steps it, clamped to the text. Returns whether
    /// the action was consumed.
    pub fn handle(&mut self, action: &Action) -> (handled: bool)
        requires
            old(self).wf(),
            old(self).text@.len() < usize::MAX,
        ensures
            final(self).wf(),
            final(self).preamble == old(self).preamble,
            match action {
                Action::Char(c) => handled && if *c == '\x08' {
                    if old(self).cursor > 0 {
                        final(self).text@ == old(self).text@.remove(old(self).cursor - 1)
                            && final(self).cursor == old(self).cursor - 1
                    } else {
                        final(self).text@ == old(self).text@ && final(self).cursor == 0
                    }
                } else {
                    final(self).text@ == old(self).text@.insert(old(self).cursor as int, *c)
                        && final(self).cursor == old(self).cursor + 1
                },
                Action::Move(d) => handled && final(self).text@ == old(self).text@
                    && final(self).cursor == match d {
                    Dir::Left => if old(self).cursor > 0 {
                        (old(self).cursor - 1) as int
                    } else {
                        0int
                    },
                    Dir::Right => if old(self).cursor + 1 <= old(self).text@.len() {
                        old(self).cursor + 1
                    } else {
                        old(self).text@.len() as int
                    },
                    _ => old(self).cursor as int,
                },
                _ => !handled && *final(self) == *old(self),
            },
    {
        match action {
            Action::Char(c) => {
                if *c == '\x08' {
                    if self.cursor > 0 {
                        self.cursor = self.cursor - 1;
                        self.text.remove(self.cursor);
                    }
                } else {
                    self.text.insert(self.cursor, *c);
                    self.cursor = self.cursor + 1;
                }
                true
            },
            Action::Move(d) => {
                match d {
                    Dir::Left => {
                        if self.cursor > 0 {
                            self.cursor = self.cursor - 1;
                        }
                    },
                    Dir::Right => {
                        if self.cursor < self.text.len() {
                            self.cursor = self.cursor + 1;
                        }
                    },
                    _ => {},
                }
                true
            },
            _ => false,
        }
    }
}

impl Default for Input {
    /// An empty input with no preamble.
    fn default() -> (r: Self)
        ensures
            r.wf(),
            r.text@.len() == 0,
            r.cursor == 0,
            r.preamble@.len() == 0,
    {
        Input { text: Vec::new(), cursor: 0, preamble: String::new() }
    }
}

/// Whether two strings hold the same characters.
pub fn str_eq(a: &str, b: &str) -> (r: bool)
    ensures
        r == (a@ == b@),
{
    let n = a.unicode_len();
    if n != b.unicode_len() {
        proof {
            assert(a@ != b@);
        }
        return false;
    }
    for i in 0..n
        invariant
            n == a@.len(),
            n == b@.len(),
            forall|k: int| 0 <= k < i ==> a@[k] == b@[k],
    {
        if a.get_char(i) != b.get_char(i) {
            return false;
        }
    }
    proof {
        assert(a@ =~= b@);
    }
    true
}

/// A prompt command the editor understands.
pub enum Command {
    Quit,
    Help,
    Version,
}

impl Command {
    /// Parse a prompt line into a command.
    pub fn from_name(s: &str) -> (r: Option<Command>)
        ensures
            (s@ == "q"@ || s@ == "quit"@) ==> r matches Some(Command::Quit),
            s@ == "version"@ ==> r matches Some(Command::Version),
            (s@ == "?"@ || s@ == "help"@) ==> r matches Some(Command::Help),
    {
        proof {
            reveal_strlit("q");
            reveal_strlit("quit");
            reveal_strlit("version");
            reveal_strlit("?");
            reveal_strlit("help");
            assert("q"@.len() == 1 && "quit"@.len() == 4 && "version"@.len() == 7 && "?"@.len()
                == 1 && "help"@.len() == 4);
            assert("q"@[0] == 'q' && "?"@[0] == '?');
            assert("quit"@[0] == 'q' && "help"@[0] == 'h');
        }
        if str_eq(s, "q") || str_eq(s, "quit") {
            Some(Command::Quit)
        } else if str_eq(s, "version") {
            Some(Command::Version)
        } else if str_eq(s, "?") || str_eq(s, "help") {
            Some(Command::Help)
        } else {
            None
        }
    }
}

/// A block of text shown to the user.
pub struct Label {
    pub text: String,
}

impl Label {
    pub fn new(text: String) -> (r: Label)
        ensures
            r.text@ == text@,
    {
        Label { text }
    }
}

/// The command prompt: a text input whose entered line is parsed into an
/// action when the user confirms it.
pub struct Prompt {
    pub input: Input,
}

impl Prompt {
    /// The action the entered command denotes, if any; the caller passes
    /// the version line shown by the `version` command, since only it
    /// knows what program it is.
    pub fn get_action(&self, version_line: &str) -> (r: Option<Action>)
        ensures
            self.input.text@ == "quit"@ ==> r matches Some(Action::Quit),
            self.input.text@ == "version"@ ==> (r matches Some(a) && a matches Action::Show(v)
                && v@ == version_line@),
    {
        proof {
            reveal_strlit("quit");
            reveal_strlit("version");
            reveal_strlit("help");
            assert("quit"@.len() == 4 && "version"@.len() == 7 && "help"@.len() == 4);
            assert("quit"@[0] == 'q' && "help"@[0] == 'h');
        }
        let text = self.input.get_text();
        if str_eq(text.as_str(), "quit") {
            Some(Action::Quit)
        } else if str_eq(text.as_str(), "version") {
            Some(Action::Show(String::from_str(version_line)))
        } else if str_eq(text.as_str(), "help") {
            Some(Action::Show(String::from_str("commands: quit, version, help")))
        } else {
            None
        }
    }
}

/// A transient message panel: some text, dismissed on cancel.
pub struct Show {
    pub label: Label,
}

impl Show {
    /// Whether the given action dismisses the panel.
    pub fn handle(&self, action: &Action) -> (dismiss: bool)
        ensures
            dismiss == (action matches Action::Cancel),
    {
        match action {
            Action::Cancel => true,
            _ => false,
        }
    }
}

} // verus!
