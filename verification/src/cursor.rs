//! Cursors: a `(base, pos)` pair describing an insertion point or a range
//! selection, with the rebasing operation applied after every edit, and the
//! character classification used by word-wise movement.

use vstd::prelude::*;
use crate::event::Dir;

verus! {

/// An insertion point or selection inside one buffer.
///
/// `pos` is the business end (where characters are inserted); `base` marks the
/// other end of a selection. Equal values mean no selection. Both fields are
/// kept in `0..=len` of the owning buffer's content by the buffer itself.
/// `preferred_x` remembers the display column that vertical movement aims at
/// while the cursor travels through shorter lines.
#[derive(Copy, Clone, Debug)]
pub struct Cursor {
    pub base: usize,
    pub pos: usize,
    pub preferred_x: Option<usize>,
}

/// The value a position takes after an edit of net length `dist` at
/// `edit_pos`: positions at or past the edit shift by `dist`, clamped so that
/// they never move before the edit itself; positions before it do not move.
pub open spec fn shifted(v: int, edit_pos: int, dist: int) -> int {
    if v >= edit_pos {
        if v + dist >= edit_pos {
            v + dist
        } else {
            edit_pos
        }
    } else {
        v
    }
}

impl Cursor {
    /// Whether the cursor currently holds a selection.
    pub open spec fn reaching(self) -> bool {
        self.base != self.pos
    }

    /// The lower end of the selection interval.
    pub open spec fn sel_min(self) -> int {
        if self.base <= self.pos {
            self.base as int
        } else {
            self.pos as int
        }
    }

    /// The upper end of the selection interval.
    pub open spec fn sel_max(self) -> int {
        if self.base <= self.pos {
            self.pos as int
        } else {
            self.base as int
        }
    }

    /// Collapse a selection to the edge given by the movement direction.
    /// Returns whether a collapse happened (i.e. there was a selection).
    pub fn unreach(&mut self, dir: Dir) -> (collapsed: bool)
        ensures
            collapsed == old(self).reaching(),
            final(self).base == old(self).base,
            final(self).preferred_x == old(self).preferred_x,
            final(self).pos == if !old(self).reaching() {
                old(self).pos as int
            } else if dir.forward() {
                old(self).sel_max()
            } else {
                old(self).sel_min()
            },
    {
        if self.base == self.pos {
            false
        } else {
            self.pos = if dir.is_forward() {
                if self.base > self.pos { self.base } else { self.pos }
            } else {
                if self.base < self.pos { self.base } else { self.pos }
            };
            true
        }
    }

    /// Move both ends of the cursor to `pos`, dropping any selection.
    pub fn go_to(&mut self, pos: usize)
        ensures
            *final(self) == (Cursor { base: pos, pos, preferred_x: old(self).preferred_x }),
    {
        self.pos = pos;
        self.base = pos;
    }

    /// Drop the selection, keeping the business end where it is.
    pub fn reset_base(&mut self)
        ensures
            *final(self) == (Cursor { base: old(self).pos, ..*old(self) }),
    {
        self.base = self.pos;
    }

    /// Whether the cursor currently holds a selection.
    pub fn is_reaching(&self) -> (r: bool)
        ensures
            r == self.reaching(),
    {
        self.base != self.pos
    }

    /// Rebase the cursor after an edit of net length `dist` at `pos`: both
    /// ends shift as [`shifted`] says, so the cursor keeps addressing the same
    /// logical text.
    pub fn shift_relative_to(&mut self, pos: usize, dist: isize)
        requires
            -(isize::MAX as int) <= dist,
            dist >= 0 ==> old(self).pos + dist <= usize::MAX && old(self).base + dist
                <= usize::MAX,
        ensures
            final(self).pos == shifted(old(self).pos as int, pos as int, dist as int),
            final(self).base == shifted(old(self).base as int, pos as int, dist as int),
            final(self).preferred_x == old(self).preferred_x,
    {
        if self.pos >= pos {
            if dist >= 0 {
                self.pos = self.pos + (dist as usize);
            } else {
                let back = (-dist) as usize;
                self.pos = if back <= self.pos && self.pos - back >= pos {
                    self.pos - back
                } else {
                    pos
                };
            }
        }
        if self.base >= pos {
            if dist >= 0 {
                self.base = self.base + (dist as usize);
            } else {
                let back = (-dist) as usize;
                self.base = if back <= self.base && self.base - back >= pos {
                    self.base - back
                } else {
                    pos
                };
            }
        }
    }

    /// Half-open membership test against the selection interval, whichever
    /// way round the selection runs.
    pub fn inside_reach(&self, pos: usize) -> (r: bool)
        ensures
            r == (self.sel_min() <= pos < self.sel_max()),
    {
        pos >= self.base && pos < self.pos || pos >= self.pos && pos < self.base
    }

    /// Half-open membership test with the closed end on the right.
    pub fn encloses(&self, pos: usize) -> (r: bool)
        ensures
            r == (self.sel_min() < pos <= self.sel_max()),
    {
        pos > self.base && pos <= self.pos || pos > self.pos && pos <= self.base
    }
}

impl Default for Cursor {
    /// A cursor at the start of the buffer with no selection.
    fn default() -> (r: Self)
        ensures
            r == (Cursor { base: 0, pos: 0, preferred_x: None::<usize> }),
    {
        Self { base: 0, pos: 0, preferred_x: None }
    }
}

/// The classification word-wise movement gives to a character. Whitespace
/// other than the newline has no kind at all (it is skipped, never consumed
/// as part of a word).
#[derive(Copy, Clone, Debug)]
pub enum CharKind {
    AlphaNum,
    Newline,
    Delimiter,
    Other,
}

/// What `char::is_whitespace` returns: membership in the Unicode `White_Space`
/// category, a function of the character alone.
pub uninterp spec fn unicode_whitespace(c: char) -> bool;

/// What `char::is_alphanumeric` returns: membership in the Unicode
/// `Alphabetic` category or one of the numeric categories, a function of the
/// character alone.
pub uninterp spec fn unicode_alphanumeric(c: char) -> bool;

/// Relies on `char::is_whitespace` of std: true exactly on `White_Space`
/// characters. The listed facts are the corners of that category the editor's
/// policies lean on: space, tab, newline and carriage return are whitespace;
/// ASCII letters, digits and `_` are not.
#[verifier::external_body]
pub fn char_is_whitespace(c: char) -> (r: bool)
    ensures
        r == unicode_whitespace(c),
        c == ' ' || c == '\t' || c == '\n' || c == '\r' ==> r,
        'a' <= c <= 'z' || 'A' <= c <= 'Z' || '0' <= c <= '9' || c == '_' ==> !r,
        '!' <= c <= '~' ==> !r,
{
    c.is_whitespace()
}

/// Relies on `char::is_alphanumeric` of std: true exactly on `Alphabetic`,
/// `Nd`, `Nl` and `No` characters. The listed facts are the corners the
/// editor's policies lean on: ASCII letters and digits are alphanumeric;
/// whitespace and ASCII punctuation (including `_` and the brackets) are not.
#[verifier::external_body]
pub fn char_is_alphanumeric(c: char) -> (r: bool)
    ensures
        r == unicode_alphanumeric(c),
        'a' <= c <= 'z' || 'A' <= c <= 'Z' || '0' <= c <= '9' ==> r,
        c == ' ' || c == '\t' || c == '\n' || c == '\r' ==> !r,
        '!' <= c <= '/' || ':' <= c <= '@' || '[' <= c <= '`' || '{' <= c <= '~' ==> !r,
{
    c.is_alphanumeric()
}

/// The kind of `c`, as a value of the spec-level classification.
pub open spec fn kind_of(c: char) -> Option<CharKind> {
    if c == '\n' {
        Some(CharKind::Newline)
    } else if unicode_whitespace(c) {
        None
    } else if unicode_alphanumeric(c) || c == '_' {
        Some(CharKind::AlphaNum)
    } else if c == '(' || c == ')' || c == '{' || c == '}' || c == '[' || c == ']' {
        Some(CharKind::Delimiter)
    } else {
        Some(CharKind::Other)
    }
}

/// Whether two classifications count as "the same word": delimiters never
/// match each other, so a word jump crosses at most one delimiter.
pub open spec fn kinds_match(a: Option<CharKind>, b: Option<CharKind>) -> bool {
    match (a, b) {
        (Some(CharKind::AlphaNum), Some(CharKind::AlphaNum)) => true,
        (Some(CharKind::Newline), Some(CharKind::Newline)) => true,
        (Some(CharKind::Other), Some(CharKind::Other)) => true,
        _ => false,
    }
}

impl CharKind {
    /// Classify `c` for word-wise movement.
    pub fn from_char(c: char) -> (r: Option<CharKind>)
        ensures
            r == kind_of(c),
    {
        if c == '\n' {
            Some(CharKind::Newline)
        } else if char_is_whitespace(c) {
            None
        } else if char_is_alphanumeric(c) || c == '_' {
            Some(CharKind::AlphaNum)
        } else if c == '(' || c == ')' || c == '{' || c == '}' || c == '[' || c == ']' {
            Some(CharKind::Delimiter)
        } else {
            Some(CharKind::Other)
        }
    }

    /// Executable form of [`kinds_match`].
    pub fn matches(a: &Option<CharKind>, b: &Option<CharKind>) -> (r: bool)
        ensures
            r == kinds_match(*a, *b),
    {
        match (a, b) {
            (Some(CharKind::AlphaNum), Some(CharKind::AlphaNum)) => true,
            (Some(CharKind::Newline), Some(CharKind::Newline)) => true,
            (Some(CharKind::Other), Some(CharKind::Other)) => true,
            _ => false,
        }
    }
}

impl PartialEq for CharKind {
    /// Delimiters are deliberately never equal to each other, matching the
    /// word-jump policy of crossing at most one delimiter at a time.
    fn eq(&self, other: &Self) -> (r: bool) {
        match (self, other) {
            (CharKind::AlphaNum, CharKind::AlphaNum)
            | (CharKind::Newline, CharKind::Newline)
            | (CharKind::Other, CharKind::Other) => true,
            _ => false,
        }
    }
}

impl vstd::std_specs::cmp::PartialEqSpecImpl for CharKind {
    open spec fn obeys_eq_spec() -> bool {
        true
    }

    open spec fn eq_spec(&self, other: &Self) -> bool {
        kinds_match(Some(*self), Some(*other))
    }
}

} // verus!
