//! Line-oriented character storage for one buffer's text.
//!
//! A `Content` is an ordered sequence of lines; each line is an ordered
//! sequence of characters with no newline stored. When the text is read
//! back, every line — the last one included — is followed by exactly one
//! newline, so the full character sequence always ends in `'\n'`. Absolute
//! positions range over `0..=len()`, where `len()` counts every character of
//! that sequence except the final synthetic newline.

use vstd::prelude::*;
use vstd::string::*;

verus! {

/// A display location: column `x` within row `y`.
#[derive(Copy, Clone, Debug, PartialEq, Eq, Structural)]
pub struct Loc {
    pub x: usize,
    pub y: usize,
}

impl Loc {
    pub fn new(x: usize, y: usize) -> (r: Loc)
        ensures
            r == (Loc { x, y }),
    {
        Loc { x, y }
    }
}

/// The full character sequence that a sequence of lines denotes: each line
/// followed by one newline.
pub open spec fn text_of(ls: Seq<Seq<char>>) -> Seq<char>
    decreases ls.len(),
{
    if ls.len() == 0 {
        Seq::empty()
    } else {
        ls[0].push('\n') + text_of(ls.drop_first())
    }
}

/// Where row `row`'s characters begin inside the full text.
pub open spec fn line_start(ls: Seq<Seq<char>>, row: int) -> int {
    text_of(ls.take(row)).len() as int
}

/// A line as stored never contains a newline character.
pub open spec fn line_ok(l: Seq<char>) -> bool {
    forall|j: int| 0 <= j < l.len() ==> l[j] != '\n'
}

/// A string with exactly one final newline: unchanged if it already ends in
/// one, extended by one otherwise.
pub open spec fn with_final_newline(s: Seq<char>) -> Seq<char> {
    if s.len() > 0 && s.last() == '\n' {
        s
    } else {
        s.push('\n')
    }
}

pub proof fn lemma_text_cat(a: Seq<Seq<char>>, b: Seq<Seq<char>>)
    ensures
        text_of(a + b) == text_of(a) + text_of(b),
    decreases a.len(),
{
    if a.len() == 0 {
        assert(a + b =~= b);
        assert(text_of(a) + text_of(b) =~= text_of(b));
    } else {
        lemma_text_cat(a.drop_first(), b);
        assert((a + b).drop_first() =~= a.drop_first() + b);
        assert(text_of(a) + text_of(b) =~= a[0].push('\n') + (text_of(a.drop_first()) + text_of(b)));
    }
}

/// Splitting the lines at `row` splits the text at `line_start(row)`.
pub proof fn lemma_text_split(ls: Seq<Seq<char>>, row: int)
    requires
        0 <= row <= ls.len(),
    ensures
        text_of(ls) == text_of(ls.take(row)) + text_of(ls.skip(row)),
        text_of(ls.take(row)).len() + text_of(ls.skip(row)).len() == text_of(ls).len(),
{
    lemma_text_cat(ls.take(row), ls.skip(row));
    assert(ls.take(row) + ls.skip(row) =~= ls);
}

pub proof fn lemma_text_one(l: Seq<char>)
    ensures
        text_of(seq![l]) == l.push('\n'),
{
    assert(seq![l].drop_first() =~= Seq::<Seq<char>>::empty());
    assert(l.push('\n') + text_of(seq![l].drop_first()) =~= l.push('\n'));
}

pub proof fn lemma_text_push(ls: Seq<Seq<char>>, l: Seq<char>)
    ensures
        text_of(ls.push(l)) == text_of(ls) + l.push('\n'),
{
    assert(ls.push(l) =~= ls + seq![l]);
    lemma_text_cat(ls, seq![l]);
    lemma_text_one(l);
}

/// The text of at least one line is never empty and always ends in a newline.
pub proof fn lemma_text_last(ls: Seq<Seq<char>>)
    requires
        ls.len() >= 1,
    ensures
        text_of(ls).len() >= 1,
        text_of(ls).last() == '\n',
        text_of(ls).len() >= ls.last().len() + 1,
    decreases ls.len(),
{
    if ls.len() == 1 {
        lemma_text_one(ls[0]);
        assert(ls =~= seq![ls[0]]);
    } else {
        lemma_text_last(ls.drop_first());
    }
}

/// Row starts step by one line plus its newline.
pub proof fn lemma_line_start_step(ls: Seq<Seq<char>>, row: int)
    requires
        0 <= row < ls.len(),
    ensures
        line_start(ls, row + 1) == line_start(ls, row) + ls[row].len() + 1,
        line_start(ls, row) >= 0,
{
    lemma_text_split(ls.take(row + 1), row);
    assert(ls.take(row + 1).take(row) =~= ls.take(row));
    assert(ls.take(row + 1).skip(row) =~= seq![ls[row]]);
    lemma_text_one(ls[row]);
}

/// Row starts stay within the text; the last row ends exactly at its end.
pub proof fn lemma_line_start_bounds(ls: Seq<Seq<char>>, row: int)
    requires
        0 <= row <= ls.len(),
    ensures
        0 <= line_start(ls, row) <= text_of(ls).len(),
        row < ls.len() ==> line_start(ls, row) + ls[row].len() + 1 <= text_of(ls).len(),
        row == ls.len() ==> line_start(ls, row) == text_of(ls).len(),
{
    lemma_text_split(ls, row);
    if row < ls.len() {
        lemma_line_start_step(ls, row);
        lemma_text_split(ls, row + 1);
    } else {
        assert(ls.take(row) =~= ls);
    }
}

/// The character at `line_start(row) + rank` is `ls[row][rank]` within the
/// line, and the newline right after it at `rank == ls[row].len()`.
pub proof fn lemma_text_index(ls: Seq<Seq<char>>, row: int, rank: int)
    requires
        0 <= row < ls.len(),
        0 <= rank <= ls[row].len(),
    ensures
        line_start(ls, row) + rank < text_of(ls).len(),
        text_of(ls)[line_start(ls, row) + rank] == if rank < ls[row].len() {
            ls[row][rank]
        } else {
            '\n'
        },
{
    lemma_text_split(ls, row);
    lemma_line_start_bounds(ls, row);
    let rest = ls.skip(row);
    assert(rest[0] =~= ls[row]);
    assert(text_of(rest) == ls[row].push('\n') + text_of(rest.drop_first()));
    assert(text_of(ls)[line_start(ls, row) + rank] == text_of(rest)[rank]);
    assert(text_of(rest)[rank] == ls[row].push('\n')[rank]);
}

/// The text splits around row `row` into the rows before, the row itself
/// with its newline, and the rows after.
pub proof fn lemma_text_around(ls: Seq<Seq<char>>, row: int)
    requires
        0 <= row < ls.len(),
    ensures
        text_of(ls) == text_of(ls.take(row)) + ls[row].push('\n') + text_of(ls.skip(row + 1)),
{
    lemma_text_split(ls, row);
    assert(ls.skip(row).drop_first() =~= ls.skip(row + 1));
    assert(ls.skip(row)[0] == ls[row]);
    assert(text_of(ls.take(row)) + (ls[row].push('\n') + text_of(ls.skip(row + 1))) =~= text_of(
        ls.take(row),
    ) + ls[row].push('\n') + text_of(ls.skip(row + 1)));
}

/// Inserting a line at `i` splices its characters plus a newline into the
/// text at `line_start(i)`.
pub proof fn lemma_text_insert_line(ls: Seq<Seq<char>>, i: int, l: Seq<char>)
    requires
        0 <= i <= ls.len(),
    ensures
        text_of(ls.insert(i, l)) == text_of(ls.take(i)) + l.push('\n') + text_of(ls.skip(i)),
        text_of(ls.insert(i, l)).len() == text_of(ls).len() + l.len() + 1,
{
    let ls2 = ls.insert(i, l);
    assert(ls2.take(i) =~= ls.take(i));
    assert(ls2[i] == l);
    assert(ls2.skip(i + 1) =~= ls.skip(i));
    lemma_text_around(ls2, i);
    lemma_text_split(ls, i);
}

/// The character/line storage for one buffer's text.
pub struct Content {
    lines: Vec<Vec<char>>,
}

impl View for Content {
    type V = Seq<Seq<char>>;

    closed spec fn view(&self) -> Seq<Seq<char>> {
        self.lines@.map_values(|l: Vec<char>| l@)
    }
}

impl Content {
    /// Well-formedness: at least one line, no stored newlines, and a total
    /// character count that fits the machine.
    pub open spec fn wf(&self) -> bool {
        &&& self@.len() >= 1
        &&& text_of(self@).len() <= usize::MAX
        &&& forall|i: int| 0 <= i < self@.len() ==> line_ok(#[trigger] self@[i])
    }

    /// The number of addressable characters: the full text minus the final
    /// synthetic newline. Positions `0..=spec_len()` are valid.
    pub open spec fn spec_len(&self) -> int {
        text_of(self@).len() - 1
    }

    /// Total characters of the text, excluding the final synthetic newline.
    pub fn len(&self) -> (r: usize)
        requires
            self.wf(),
        ensures
            r == self.spec_len(),
    {
        let mut sum: usize = 0;
        let n = self.lines.len();
        assert(self@.take(0) =~= Seq::<Seq<char>>::empty());
        for i in 0..n
            invariant
                n == self@.len(),
                self.wf(),
                sum == line_start(self@, i as int),
        {
            proof {
                lemma_line_start_step(self@, i as int);
                lemma_line_start_bounds(self@, i as int + 1);
            }
            sum = sum + self.lines[i].len() + 1;
        }
        proof {
            assert(self@.take(n as int) =~= self@);
            lemma_text_last(self@);
        }
        sum - 1
    }

    /// How many lines the content holds (always at least one).
    pub fn line_count(&self) -> (r: usize)
        ensures
            r == self@.len(),
    {
        self.lines.len()
    }

    /// The characters of line `i`, without the trailing newline.
    pub fn line_chars(&self, i: usize) -> (r: Option<Vec<char>>)
        ensures
            match r {
                Some(v) => i < self@.len() && v@ == self@[i as int],
                None => i >= self@.len(),
            },
    {
        if i < self.lines.len() {
            Some(clone_chars(&self.lines[i]))
        } else {
            None
        }
    }

    /// The full text, every line followed by its newline.
    pub fn chars(&self) -> (r: Vec<char>)
        requires
            self.wf(),
        ensures
            r@ == text_of(self@),
    {
        let mut out: Vec<char> = Vec::new();
        let n = self.lines.len();
        assert(self@.take(0) =~= Seq::<Seq<char>>::empty());
        for i in 0..n
            invariant
                n == self@.len(),
                self.wf(),
                out@ == text_of(self@.take(i as int)),
        {
            let m = self.lines[i].len();
            let ghost line: Seq<char> = self@[i as int];
            for j in 0..m
                invariant
                    n == self@.len(),
                    i < n,
                    self.wf(),
                    m == line.len(),
                    line == self@[i as int],
                    out@ == text_of(self@.take(i as int)) + line.take(j as int),
            {
                out.push(self.lines[i][j]);
                assert(line.take(j as int).push(line[j as int]) =~= line.take(j + 1));
            }
            out.push('\n');
            proof {
                assert(line.take(m as int) =~= line);
                lemma_text_push(self@.take(i as int), line);
                assert(self@.take(i as int).push(line) =~= self@.take(i + 1));
            }
        }
        proof {
            assert(self@.take(n as int) =~= self@);
        }
        out
    }

    /// The character at absolute position `pos`: a stored character, the
    /// newline that ends its line, or `None` past the end of the buffer.
    pub fn char_at(&self, pos: usize) -> (r: Option<char>)
        requires
            self.wf(),
        ensures
            r == if pos <= self.spec_len() {
                Some(text_of(self@)[pos as int])
            } else {
                None::<char>
            },
    {
        let l = self.len();
        if pos > l {
            None
        } else {
            let rl = self.pos_to_rank_line(pos);
            proof {
                lemma_text_index(self@, rl.y as int, rl.x as int);
            }
            if rl.x < self.lines[rl.y].len() {
                Some(self.lines[rl.y][rl.x])
            } else {
                Some('\n')
            }
        }
    }

    /// Map an absolute position to an in-line offset `x` within line `y` by
    /// walking lines and subtracting consumed lengths.
    pub fn pos_to_rank_line(&self, pos: usize) -> (r: Loc)
        requires
            self.wf(),
            pos <= self.spec_len(),
        ensures
            r.y < self@.len(),
            r.x <= self@[r.y as int].len(),
            line_start(self@, r.y as int) + r.x == pos,
            r.y == row_of(self@, pos as int),
            r.x == rank_of(self@, pos as int),
    {
        let mut row: usize = 0;
        let mut p: usize = pos;
        let n = self.lines.len();
        assert(self@.take(0) =~= Seq::<Seq<char>>::empty());
        loop
            invariant
                self.wf(),
                n == self@.len(),
                pos <= self.spec_len(),
                row < n,
                line_start(self@, row as int) + p == pos,
            decreases self@.len() - row,
        {
            proof {
                lemma_line_start_step(self@, row as int);
                lemma_line_start_bounds(self@, row as int + 1);
                lemma_text_last(self@);
            }
            if p >= self.lines[row].len() + 1 {
                p = p - (self.lines[row].len() + 1);
                row = row + 1;
                proof {
                    if row as int == self@.len() {
                        lemma_line_start_bounds(self@, row as int);
                    }
                }
            } else {
                proof {
                    lemma_row_of_bracket(self@, pos as int);
                    lemma_row_unique(
                        self@,
                        row as int,
                        p as int,
                        row_of(self@, pos as int),
                        rank_of(self@, pos as int),
                    );
                }
                return Loc { x: p, y: row };
            }
        }
    }
    /// Insert `c` at absolute position `pos`. A newline splits the target
    /// line in two at the in-line offset; any other character is spliced into
    /// the line's character sequence.
    pub fn insert(&mut self, pos: usize, c: char)
        requires
            old(self).wf(),
            pos <= old(self).spec_len(),
            text_of(old(self)@).len() + 1 <= usize::MAX,
        ensures
            final(self).wf(),
            text_of(final(self)@) == text_of(old(self)@).insert(pos as int, c),
            final(self).spec_len() == old(self).spec_len() + 1,
            c != '\n' ==> final(self)@ == old(self)@.update(
                row_of(old(self)@, pos as int),
                old(self)@[row_of(old(self)@, pos as int)].insert(
                    rank_of(old(self)@, pos as int),
                    c,
                ),
            ),
    {
        let rl = self.pos_to_rank_line(pos);
        let row = rl.y;
        let rank = rl.x;
        let ghost ls0 = self@;
        let ghost l = ls0[row as int];
        let ghost told = text_of(ls0);
        proof {
            lemma_text_around(ls0, row as int);
        }
        if c == '\n' {
            let nrows = self.lines.len();
            assert(row < nrows);
            let mut line = self.lines.remove(row);
            let tail = line.split_off(rank);
            self.lines.insert(row, line);
            self.lines.insert(row + 1, tail);
            proof {
                let l1 = l.take(rank as int);
                let l2 = l.skip(rank as int);
                assert(self@ =~= ls0.take(row as int) + seq![l1, l2] + ls0.skip(row as int + 1));
                lemma_text_cat(ls0.take(row as int), seq![l1, l2]);
                lemma_text_cat(ls0.take(row as int) + seq![l1, l2], ls0.skip(row as int + 1));
                lemma_text_cat(seq![l1], seq![l2]);
                lemma_text_one(l1);
                lemma_text_one(l2);
                assert(seq![l1] + seq![l2] =~= seq![l1, l2]);
                assert(told.insert(pos as int, c) =~= text_of(ls0.take(row as int)) + l1.push('\n')
                    + l2.push('\n') + text_of(ls0.skip(row as int + 1)));
                assert(forall|i: int|
                    0 <= i < self@.len() ==> line_ok(#[trigger] self@[i]));
            }
        } else {
            let mut line = self.lines.remove(row);
            line.insert(rank, c);
            self.lines.insert(row, line);
            proof {
                let l1 = l.insert(rank as int, c);
                assert(self@ =~= ls0.take(row as int) + seq![l1] + ls0.skip(row as int + 1));
                assert(self@ =~= ls0.update(row as int, l1));
                lemma_text_cat(ls0.take(row as int), seq![l1]);
                lemma_text_cat(ls0.take(row as int) + seq![l1], ls0.skip(row as int + 1));
                lemma_text_one(l1);
                assert(told.insert(pos as int, c) =~= text_of(ls0.take(row as int)) + l1.push('\n')
                    + text_of(ls0.skip(row as int + 1)));
                assert(forall|i: int|
                    0 <= i < self@.len() ==> line_ok(#[trigger] self@[i]));
            }
        }
    }

    /// Remove the character at absolute position `pos`. At an in-line offset
    /// equal to the line's length this removes the newline, merging the
    /// following line into the current one; at the very end of the buffer
    /// (where only the synthetic final newline stands) it is a no-op.
    pub fn remove(&mut self, pos: usize)
        requires
            old(self).wf(),
            pos <= old(self).spec_len(),
        ensures
            final(self).wf(),
            pos < old(self).spec_len() ==> text_of(final(self)@) == text_of(old(self)@).remove(
                pos as int,
            ) && final(self).spec_len() == old(self).spec_len() - 1,
            pos == old(self).spec_len() ==> *final(self) == *old(self),
    {
        let rl = self.pos_to_rank_line(pos);
        let row = rl.y;
        let rank = rl.x;
        let ghost ls0 = self@;
        let ghost l = ls0[row as int];
        let ghost told = text_of(ls0);
        proof {
            lemma_text_around(ls0, row as int);
            lemma_line_start_bounds(ls0, row as int + 1);
        }
        if rank == self.lines[row].len() {
            if row < self.lines.len() - 1 {
                let mut next = self.lines.remove(row + 1);
                let mut line = self.lines.remove(row);
                line.append(&mut next);
                self.lines.insert(row, line);
                proof {
                    let lnext = ls0[row as int + 1];
                    let merged = l + lnext;
                    assert(ls0.remove(row as int + 1).remove(row as int) =~= ls0.take(row as int)
                        + ls0.skip(row as int + 2));
                    assert(self@ =~= ls0.take(row as int) + seq![merged] + ls0.skip(
                        row as int + 2,
                    ));
                    lemma_text_cat(ls0.take(row as int), seq![merged]);
                    lemma_text_cat(ls0.take(row as int) + seq![merged], ls0.skip(row as int + 2));
                    lemma_text_one(merged);
                    lemma_text_around(ls0.skip(row as int + 1), 0);
                    assert(ls0.skip(row as int + 1)[0] == lnext);
                    assert(ls0.skip(row as int + 1).take(0) =~= Seq::<Seq<char>>::empty());
                    assert(ls0.skip(row as int + 1).skip(1) =~= ls0.skip(row as int + 2));
                    assert(text_of(ls0.skip(row as int + 1)) =~= lnext.push('\n') + text_of(
                        ls0.skip(row as int + 2),
                    ));
                    lemma_line_start_bounds(ls0, row as int + 2);
                    assert(told.remove(pos as int) =~= text_of(ls0.take(row as int)) + merged.push(
                        '\n',
                    ) + text_of(ls0.skip(row as int + 2)));
                    assert(forall|i: int|
                        0 <= i < self@.len() ==> line_ok(#[trigger] self@[i]));
                }
            } else {
                proof {
                    lemma_text_last(ls0);
                    assert(ls0.take(row as int).push(l) =~= ls0);
                    lemma_text_push(ls0.take(row as int), l);
                }
            }
        } else {
            let mut line = self.lines.remove(row);
            line.remove(rank);
            self.lines.insert(row, line);
            proof {
                let l1 = l.remove(rank as int);
                assert(self@ =~= ls0.take(row as int) + seq![l1] + ls0.skip(row as int + 1));
                lemma_text_cat(ls0.take(row as int), seq![l1]);
                lemma_text_cat(ls0.take(row as int) + seq![l1], ls0.skip(row as int + 1));
                lemma_text_one(l1);
                assert(told.remove(pos as int) =~= text_of(ls0.take(row as int)) + l1.push('\n')
                    + text_of(ls0.skip(row as int + 1)));
                assert(forall|i: int|
                    0 <= i < self@.len() ==> line_ok(#[trigger] self@[i]));
            }
        }
    }

    /// Insert a whole line (which must contain no newline) before row `i`.
    /// Cursors are not rebased by this operation.
    pub fn insert_line(&mut self, i: usize, s: &str)
        requires
            old(self).wf(),
            i <= old(self)@.len(),
            line_ok(s@),
            text_of(old(self)@).len() + s@.len() + 1 <= usize::MAX,
        ensures
            final(self).wf(),
            final(self)@ == old(self)@.insert(i as int, s@),
            text_of(final(self)@) == text_of(old(self)@.insert(i as int, s@)),
    {
        let v = str_to_chars(s);
        self.insert_line_vec(i, v);
    }

    /// Insert an already-built line (no newline characters) before row `i`.
    pub fn insert_line_vec(&mut self, i: usize, v: Vec<char>)
        requires
            old(self).wf(),
            i <= old(self)@.len(),
            line_ok(v@),
            text_of(old(self)@).len() + v@.len() + 1 <= usize::MAX,
        ensures
            final(self).wf(),
            final(self)@ == old(self)@.insert(i as int, v@),
    {
        let ghost ls0 = self@;
        self.lines.insert(i, v);
        proof {
            assert(self@ =~= ls0.insert(i as int, v@));
            lemma_text_insert_line(ls0, i as int, v@);
        }
    }

    /// Build content from a string: the text between newlines becomes the
    /// lines; a string not ending in a newline is treated as if one followed,
    /// and the empty string becomes a single empty line.
    pub fn from(s: &str) -> (r: Content)
        requires
            s@.len() < usize::MAX,
        ensures
            r.wf(),
            text_of(r@) == with_final_newline(s@),
    {
        let n = s.unicode_len();
        let mut lines: Vec<Vec<char>> = Vec::new();
        let mut cur: Vec<char> = Vec::new();
        let ghost sv = s@;
        assert(sv.take(0) =~= Seq::<char>::empty());
        assert(text_of(views(lines@)) + cur@ =~= sv.take(0));
        for i in 0..n
            invariant
                n == sv.len(),
                sv == s@,
                text_of(views(lines@)) + cur@ == sv.take(i as int),
                forall|k: int| 0 <= k < views(lines@).len() ==> line_ok(#[trigger] views(lines@)[k]),
                line_ok(cur@),
                text_of(views(lines@)).len() <= i,
                i > 0 && sv[i - 1] == '\n' ==> cur@.len() == 0 && views(lines@).len() >= 1,
                cur@.len() > 0 ==> sv[i - 1] == cur@.last(),
        {
            let c = s.get_char(i);
            if c == '\n' {
                proof {
                    lemma_text_push(views(lines@), cur@);
                }
                let ghost lv0 = views(lines@);
                let ghost cur0 = cur@;
                lines.push(cur);
                cur = Vec::new();
                proof {
                    assert(views(lines@) =~= lv0.push(cur0));
                    assert(text_of(views(lines@)) + cur@ =~= sv.take(i + 1));
                }
            } else {
                cur.push(c);
                assert(text_of(views(lines@)) + cur@ =~= sv.take(i + 1));
            }
        }
        proof {
            assert(sv.take(n as int) =~= sv);
        }
        if lines.len() == 0 || cur.len() > 0 {
            proof {
                lemma_text_push(views(lines@), cur@);
            }
            let ghost lv0 = views(lines@);
            let ghost cur0 = cur@;
            lines.push(cur);
            proof {
                assert(views(lines@) =~= lv0.push(cur0));
                assert(text_of(views(lines@)) =~= sv.push('\n'));
                assert(forall|k: int|
                    0 <= k < views(lines@).len() ==> line_ok(#[trigger] views(lines@)[k]));
                if sv.len() > 0 && sv.last() == '\n' {
                    assert(cur0.len() == 0 && lv0.len() >= 1);
                    assert(false);
                }
            }
            let r = Content { lines };
            assert(r@ == views(r.lines@));
            r
        } else {
            proof {
                assert(cur@.len() == 0);
                assert(text_of(views(lines@)) + cur@ =~= text_of(views(lines@)));
                lemma_text_last(views(lines@));
                assert(sv.len() > 0 && sv.last() == '\n');
            }
            let r = Content { lines };
            assert(r@ == views(r.lines@));
            r
        }
    }
}

/// The views of a sequence of character vectors.
pub open spec fn views(lv: Seq<Vec<char>>) -> Seq<Seq<char>> {
    lv.map_values(|l: Vec<char>| l@)
}

impl Default for Content {
    /// A single empty line: the smallest well-formed content, with `len() == 0`.
    fn default() -> (r: Self)
        ensures
            r.wf(),
            r@ == seq![Seq::<char>::empty()],
            r.spec_len() == 0,
    {
        let mut lines: Vec<Vec<char>> = Vec::new();
        lines.push(Vec::new());
        let r = Content { lines };
        proof {
            assert(r@ =~= seq![Seq::<char>::empty()]);
            lemma_text_one(Seq::<char>::empty());
            assert(seq![Seq::<char>::empty()] =~= seq![Seq::<char>::empty()]);
        }
        r
    }
}

/// The characters of a string slice, gathered into a vector.
pub fn str_to_chars(s: &str) -> (r: Vec<char>)
    ensures
        r@ == s@,
{
    let n = s.unicode_len();
    let mut out: Vec<char> = Vec::new();
    for i in 0..n
        invariant
            n == s@.len(),
            out@ == s@.take(i as int),
    {
        out.push(s.get_char(i));
        assert(s@.take(i as int).push(s@[i as int]) =~= s@.take(i + 1));
    }
    assert(s@.take(n as int) =~= s@);
    out
}

/// Law: building content from a string and reading its characters back
/// reproduces the string, whether or not it ended in a newline; the one
/// synthetic trailing newline is not counted by `len()`.
pub proof fn lemma_string_round_trip(s: Seq<char>, ls: Seq<Seq<char>>)
    requires
        text_of(ls) == with_final_newline(s),
    ensures
        s.len() > 0 && s.last() == '\n' ==> text_of(ls) == s,
        !(s.len() > 0 && s.last() == '\n') ==> text_of(ls).drop_last() == s && text_of(ls).last()
            == '\n',
        text_of(ls).len() - 1 == if s.len() > 0 && s.last() == '\n' {
            s.len() - 1
        } else {
            s.len() as int
        },
{
    if !(s.len() > 0 && s.last() == '\n') {
        assert(s.push('\n').drop_last() =~= s);
    }
}

/// An element-wise copy of a character vector.
pub fn clone_chars(v: &Vec<char>) -> (r: Vec<char>)
    ensures
        r@ == v@,
{
    let mut out: Vec<char> = Vec::new();
    let n = v.len();
    for i in 0..n
        invariant
            n == v@.len(),
            out@ == v@.take(i as int),
    {
        out.push(v[i]);
        assert(v@.take(i as int).push(v@[i as int]) =~= v@.take(i + 1));
    }
    assert(v@.take(n as int) =~= v@);
    out
}

/// Editor behaviour toggles that the content's display mapping and the
/// command processor consult.
pub struct Config {
    pub tab_width: usize,
    pub hard_tabs: bool,
    pub auto_indent: bool,
    pub insert_matching: bool,
}

impl Config {
    /// A tab stop must be at least one column wide for column arithmetic to
    /// make sense.
    pub open spec fn wf(&self) -> bool {
        self.tab_width >= 1
    }
}

impl Default for Config {
    /// Four-column soft tabs with auto-indent on, matching-bracket insertion
    /// off.
    fn default() -> (r: Self)
        ensures
            r.wf(),
            r.tab_width == 4,
            !r.hard_tabs,
            r.auto_indent,
            !r.insert_matching,
    {
        Self { tab_width: 4, hard_tabs: false, auto_indent: true, insert_matching: false }
    }
}

/// How many display columns the character `c` occupies when it starts at
/// column `col`: a tab runs to the next multiple of `tab_width`, everything
/// else takes one column.
pub open spec fn char_cols(c: char, col: int, tab_width: int) -> int {
    if c == '\t' {
        tab_width - (col % tab_width)
    } else {
        1
    }
}

/// The display column at which character `i` of `l` begins.
pub open spec fn width_upto(l: Seq<char>, i: int, tab_width: int) -> int
    decreases i,
{
    if i <= 0 {
        0
    } else {
        width_upto(l, i - 1, tab_width) + char_cols(l[i - 1], width_upto(l, i - 1, tab_width), tab_width)
    }
}

/// The total display width of a line.
pub open spec fn line_width(l: Seq<char>, tab_width: int) -> int {
    width_upto(l, l.len() as int, tab_width)
}

/// Every line's display width fits the machine; the precondition under which
/// column arithmetic can be carried out exactly.
pub open spec fn widths_fit(ls: Seq<Seq<char>>, tab_width: int) -> bool {
    forall|row: int| 0 <= row < ls.len() ==> line_width(#[trigger] ls[row], tab_width) <= usize::MAX
}

/// Column positions grow by at least one column per character and by at most
/// `tab_width`.
pub proof fn lemma_width_step(l: Seq<char>, i: int, tab_width: int)
    requires
        tab_width >= 1,
        0 <= i,
    ensures
        width_upto(l, i, tab_width) + 1 <= width_upto(l, i + 1, tab_width),
        width_upto(l, i + 1, tab_width) <= width_upto(l, i, tab_width) + tab_width,
        width_upto(l, i, tab_width) >= i,
    decreases i,
{
    let w = width_upto(l, i, tab_width);
    assert(w % tab_width < tab_width && w % tab_width >= 0) by (nonlinear_arith)
        requires tab_width >= 1, w >= 0 || w < 0;
    if i > 0 {
        lemma_width_step(l, i - 1, tab_width);
    }
}

/// Columns are strictly monotone in the character index.
pub proof fn lemma_width_mono(l: Seq<char>, i: int, j: int, tab_width: int)
    requires
        tab_width >= 1,
        0 <= i <= j,
    ensures
        width_upto(l, i, tab_width) + (j - i) <= width_upto(l, j, tab_width),
    decreases j - i,
{
    if i < j {
        lemma_width_mono(l, i, j - 1, tab_width);
        lemma_width_step(l, j - 1, tab_width);
    }
}

/// The in-line character index addressed by display column `x`, scanning
/// from character `j`: the character whose column run contains `x`, or the
/// line's length when `x` lies at or beyond the line's full width.
pub open spec fn rank_from(l: Seq<char>, tab_width: int, j: int, x: int) -> int
    decreases l.len() - j,
{
    if j < 0 || j >= l.len() {
        l.len() as int
    } else if x < width_upto(l, j + 1, tab_width) {
        j
    } else {
        rank_from(l, tab_width, j + 1, x)
    }
}

/// The in-line character index addressed by display column `x`.
pub open spec fn rank_at(l: Seq<char>, x: int, tab_width: int) -> int {
    rank_from(l, tab_width, 0, x)
}

/// `rank_from` finds the column run containing `x`, or the end of the line.
pub proof fn lemma_rank_from(l: Seq<char>, tab_width: int, j: int, x: int)
    requires
        tab_width >= 1,
        0 <= j <= l.len(),
        width_upto(l, j, tab_width) <= x,
    ensures
        j <= rank_from(l, tab_width, j, x) <= l.len(),
        x < line_width(l, tab_width) ==> rank_from(l, tab_width, j, x) < l.len()
            && width_upto(l, rank_from(l, tab_width, j, x), tab_width) <= x
            && x < width_upto(l, rank_from(l, tab_width, j, x) + 1, tab_width),
        x >= line_width(l, tab_width) ==> rank_from(l, tab_width, j, x) == l.len(),
    decreases l.len() - j,
{
    if j == l.len() {
        assert(x >= line_width(l, tab_width));
    } else if x < width_upto(l, j + 1, tab_width) {
        lemma_width_mono(l, j + 1, l.len() as int, tab_width);
    } else {
        lemma_rank_from(l, tab_width, j + 1, x);
    }
}

/// Unique bracketing: a column at a character boundary maps back to exactly
/// that character.
pub proof fn lemma_rank_at_boundary(l: Seq<char>, tab_width: int, k: int)
    requires
        tab_width >= 1,
        0 <= k <= l.len(),
    ensures
        rank_at(l, width_upto(l, k, tab_width), tab_width) == k,
{
    let x = width_upto(l, k, tab_width);
    lemma_width_mono(l, 0, k, tab_width);
    lemma_rank_from(l, tab_width, 0, x);
    let r = rank_at(l, x, tab_width);
    if k < l.len() {
        lemma_width_mono(l, k, l.len() as int, tab_width);
        assert(x < line_width(l, tab_width));
        if r < k {
            lemma_width_mono(l, r + 1, k, tab_width);
            assert(false);
        }
        if r > k {
            lemma_width_mono(l, k + 1, r, tab_width);
            lemma_width_step(l, k, tab_width);
            assert(false);
        }
    } else {
        assert(x >= line_width(l, tab_width));
    }
}

/// The row containing absolute position `pos`, found by walking lines and
/// subtracting consumed lengths.
pub open spec fn row_of(ls: Seq<Seq<char>>, pos: int) -> int
    decreases ls.len(),
{
    if ls.len() == 0 {
        0
    } else if pos < ls[0].len() + 1 {
        0
    } else {
        1 + row_of(ls.drop_first(), pos - ls[0].len() - 1)
    }
}

/// The in-line offset of absolute position `pos` within its row.
pub open spec fn rank_of(ls: Seq<Seq<char>>, pos: int) -> int {
    pos - line_start(ls, row_of(ls, pos))
}

/// `row_of` brackets the position between its row's start and end.
pub proof fn lemma_row_of_bracket(ls: Seq<Seq<char>>, pos: int)
    requires
        0 <= pos,
        pos < text_of(ls).len(),
    ensures
        0 <= row_of(ls, pos) < ls.len(),
        line_start(ls, row_of(ls, pos)) <= pos,
        pos - line_start(ls, row_of(ls, pos)) <= ls[row_of(ls, pos)].len(),
    decreases ls.len(),
{
    assert(ls.len() > 0);
    if pos < ls[0].len() + 1 {
        assert(ls.take(0) =~= Seq::<Seq<char>>::empty());
    } else {
        let tail = ls.drop_first();
        lemma_row_of_bracket(tail, pos - ls[0].len() - 1);
        let r = row_of(tail, pos - ls[0].len() - 1);
        assert(ls.take(1 + r).drop_first() =~= tail.take(r));
        assert(ls.take(1 + r)[0] == ls[0]);
        assert(text_of(ls.take(1 + r)) == ls[0].push('\n') + text_of(ls.take(1 + r).drop_first()));
        assert(line_start(ls, 1 + r) == ls[0].len() + 1 + line_start(tail, r));
    }
}

/// Only one `(row, rank)` pair brackets a given position.
pub proof fn lemma_row_unique(ls: Seq<Seq<char>>, row1: int, rank1: int, row2: int, rank2: int)
    requires
        0 <= row1 < ls.len(),
        0 <= row2 < ls.len(),
        0 <= rank1 <= ls[row1].len(),
        0 <= rank2 <= ls[row2].len(),
        line_start(ls, row1) + rank1 == line_start(ls, row2) + rank2,
    ensures
        row1 == row2,
        rank1 == rank2,
{
    if row1 < row2 {
        lemma_line_start_step(ls, row1);
        lemma_start_nondecreasing(ls, row1 + 1, row2);
        assert(false);
    }
    if row2 < row1 {
        lemma_line_start_step(ls, row2);
        lemma_start_nondecreasing(ls, row2 + 1, row1);
        assert(false);
    }
}

/// Row starts never decrease.
pub proof fn lemma_start_nondecreasing(ls: Seq<Seq<char>>, a: int, b: int)
    requires
        0 <= a <= b <= ls.len(),
    ensures
        line_start(ls, a) <= line_start(ls, b),
    decreases b - a,
{
    if a < b {
        lemma_line_start_step(ls, a);
        lemma_start_nondecreasing(ls, a + 1, b);
    }
}

/// The display location of absolute position `pos`: its row, and the column
/// at which its character begins.
pub open spec fn pos_loc_spec(ls: Seq<Seq<char>>, pos: int, tab_width: int) -> (int, int) {
    let row = row_of(ls, pos);
    (width_upto(ls[row], pos - line_start(ls, row), tab_width), row)
}

/// The absolute position addressed by display location `(x, y)`: the rows
/// above plus the character whose column run holds `x`, clamped to the end
/// of the buffer; columns past a row's width resolve to its end, rows past
/// the last resolve to the end of the buffer.
pub open spec fn loc_pos_spec(ls: Seq<Seq<char>>, x: int, y: int, tab_width: int) -> int {
    let yy = if y <= ls.len() { y } else { ls.len() as int };
    let base = line_start(ls, yy);
    let rank = if y < ls.len() { rank_at(ls[y], x, tab_width) } else { 0 };
    let p = base + rank;
    if p <= text_of(ls).len() - 1 { p } else { text_of(ls).len() - 1 }
}

/// Law: converting a display location to a position and back returns the
/// same location, for every location on a character boundary; a location in
/// the interior of a tab's column run collapses to the tab's own column.
pub proof fn lemma_pos_loc_round_trip(ls: Seq<Seq<char>>, tab_width: int, x: int, y: int)
    requires
        tab_width >= 1,
        ls.len() >= 1,
        0 <= y < ls.len(),
        0 <= x,
    ensures
        (exists|j: int| 0 <= j <= ls[y].len() && x == width_upto(ls[y], j, tab_width)) ==>
            pos_loc_spec(ls, loc_pos_spec(ls, x, y, tab_width), tab_width) == (x, y),
        x < line_width(ls[y], tab_width) ==> pos_loc_spec(
            ls,
            loc_pos_spec(ls, x, y, tab_width),
            tab_width,
        ) == (width_upto(ls[y], rank_at(ls[y], x, tab_width), tab_width), y),
{
    let l = ls[y];
    let rank = rank_at(l, x, tab_width);
    lemma_rank_from(l, tab_width, 0, x);
    lemma_line_start_bounds(ls, y);
    lemma_text_last(ls);
    let p = line_start(ls, y) + rank;
    assert(p <= text_of(ls).len() - 1);
    assert(loc_pos_spec(ls, x, y, tab_width) == p);
    lemma_row_of_bracket(ls, p);
    lemma_row_unique(ls, y, rank, row_of(ls, p), p - line_start(ls, row_of(ls, p)));
    if exists|j: int| 0 <= j <= l.len() && x == width_upto(l, j, tab_width) {
        let j = choose|j: int| 0 <= j <= l.len() && x == width_upto(l, j, tab_width);
        lemma_rank_at_boundary(l, tab_width, j);
    }
}

/// One line of a content, detached from it: its characters without the
/// trailing newline, which is supplied when the line is read out.
pub struct Line {
    chars: Vec<char>,
}

impl View for Line {
    type V = Seq<char>;

    closed spec fn view(&self) -> Seq<char> {
        self.chars@
    }
}

impl Line {
    /// A line with no characters.
    pub fn empty() -> (r: Line)
        ensures
            r@ == Seq::<char>::empty(),
    {
        Line { chars: Vec::new() }
    }

    /// Wrap an already-built character vector as a line.
    pub fn from_chars(chars: Vec<char>) -> (r: Line)
        ensures
            r@ == chars@,
    {
        Line { chars }
    }

    /// The line's length including the newline that conceptually ends it.
    pub fn len(&self) -> (r: usize)
        requires
            self@.len() < usize::MAX,
        ensures
            r == self@.len() + 1,
    {
        self.chars.len() + 1
    }

    /// The character at in-line offset `pos`, if the offset is within the
    /// stored characters.
    pub fn get(&self, pos: usize) -> (r: Option<char>)
        ensures
            r == if pos < self@.len() {
                Some(self@[pos as int])
            } else {
                None::<char>
            },
    {
        if pos < self.chars.len() {
            Some(self.chars[pos])
        } else {
            None
        }
    }

    /// The line's characters followed by its newline.
    pub fn chars(&self) -> (r: Vec<char>)
        ensures
            r@ == self@.push('\n'),
    {
        let mut out = clone_chars(&self.chars);
        out.push('\n');
        out
    }

    /// The line as a string, newline included.
    pub fn get_string(&self) -> (r: String)
        ensures
            r@ == self@.push('\n'),
    {
        let v = self.chars();
        chars_to_string(&v)
    }

    /// The columns this line occupies on screen: for each column, the source
    /// offset of the character shown there and the character itself, tabs
    /// expanded to runs of spaces aligned on `tab_width`. Columns past the
    /// line's width are blank padding, left to the renderer.
    pub fn glyphs(&self, cfg: &Config) -> (r: Vec<(Option<usize>, char)>)
        requires
            cfg.wf(),
            line_width(self@, cfg.tab_width as int) <= usize::MAX,
        ensures
            r@.len() == line_width(self@, cfg.tab_width as int),
            forall|k: int| 0 <= k < r@.len() ==> {
                let src = rank_at(self@, k, cfg.tab_width as int);
                #[trigger] r@[k] == (Some(src as usize), if self@[src] == '\t' {
                    ' '
                } else {
                    self@[src]
                })
            },
    {
        let ghost tw = cfg.tab_width as int;
        let mut out: Vec<(Option<usize>, char)> = Vec::new();
        let n = self.chars.len();
        let mut col: usize = 0;
        for j in 0..n
            invariant
                n == self@.len(),
                cfg.wf(),
                tw == cfg.tab_width as int,
                line_width(self@, tw) <= usize::MAX,
                col == width_upto(self@, j as int, tw),
                out@.len() == col,
                forall|k: int| 0 <= k < out@.len() ==> {
                    let src = rank_at(self@, k, tw);
                    #[trigger] out@[k] == (Some(src as usize), if self@[src] == '\t' {
                        ' '
                    } else {
                        self@[src]
                    })
                },
        {
            proof {
                lemma_width_step(self@, j as int, tw);
                lemma_width_mono(self@, j + 1, n as int, tw);
            }
            let c = self.chars[j];
            let w: usize = if c == '\t' {
                cfg.tab_width - col % cfg.tab_width
            } else {
                1
            };
            let disp: char = if c == '\t' { ' ' } else { c };
            assert(col + w == width_upto(self@, j + 1, tw));
            let target = col + w;
            while col < target
                invariant
                    n == self@.len(),
                    j < n,
                    tw >= 1,
                    width_upto(self@, j as int, tw) <= col <= target,
                    target == width_upto(self@, j + 1, tw),
                    target <= usize::MAX,
                    disp == if self@[j as int] == '\t' { ' ' } else { self@[j as int] },
                    out@.len() == col,
                    forall|k: int| 0 <= k < out@.len() ==> {
                        let src = rank_at(self@, k, tw);
                        #[trigger] out@[k] == (Some(src as usize), if self@[src] == '\t' {
                            ' '
                        } else {
                            self@[src]
                        })
                    },
                decreases target - col,
            {
                proof {
                    lemma_rank_from(self@, tw, 0, col as int);
                    lemma_width_mono(self@, 0, j as int, tw);
                    if rank_at(self@, col as int, tw) < j {
                        lemma_width_mono(
                            self@,
                            rank_at(self@, col as int, tw) + 1,
                            j as int,
                            tw,
                        );
                    }
                    if rank_at(self@, col as int, tw) > j {
                        lemma_width_mono(self@, j + 1, rank_at(self@, col as int, tw), tw);
                    }
                    lemma_width_mono(self@, j + 1, n as int, tw);
                    assert(rank_at(self@, col as int, tw) == j);
                }
                out.push((Some(j), disp));
                col = col + 1;
            }
        }
        out
    }
}

/// Relies on `String`'s `FromIterator<char>` of std: collecting characters
/// yields the string of exactly those characters, in order.
#[verifier::external_body]
pub fn chars_to_string(v: &Vec<char>) -> (r: String)
    ensures
        r@ == v@,
{
    v.iter().copied().collect()
}

impl Content {
    /// The line at row `i`, detached, or `None` past the last row.
    pub fn line(&self, i: usize) -> (r: Option<Line>)
        ensures
            match r {
                Some(l) => i < self@.len() && l@ == self@[i as int],
                None => i >= self@.len(),
            },
    {
        if i < self.lines.len() {
            Some(Line::from_chars(clone_chars(&self.lines[i])))
        } else {
            None
        }
    }

    /// All lines, detached, in order.
    pub fn lines(&self) -> (r: Vec<Line>)
        ensures
            r@.len() == self@.len(),
            forall|i: int| 0 <= i < r@.len() ==> #[trigger] r@[i]@ == self@[i],
    {
        let mut out: Vec<Line> = Vec::new();
        let n = self.lines.len();
        for i in 0..n
            invariant
                n == self@.len(),
                out@.len() == i,
                forall|k: int| 0 <= k < i ==> #[trigger] out@[k]@ == self@[k],
        {
            out.push(Line::from_chars(clone_chars(&self.lines[i])));
        }
        out
    }

    /// The full text as a string, final newline included.
    pub fn get_string(&self) -> (r: String)
        requires
            self.wf(),
        ensures
            r@ == text_of(self@),
    {
        let v = self.chars();
        chars_to_string(&v)
    }

    /// Convert an absolute position to its display location: the containing
    /// row, and the column where its character's run begins. A position
    /// inside no character run (the end of a line) lands at the line's full
    /// width.
    pub fn pos_loc(&self, pos: usize, cfg: &Config) -> (r: Loc)
        requires
            self.wf(),
            cfg.wf(),
            pos <= self.spec_len(),
            widths_fit(self@, cfg.tab_width as int),
        ensures
            (r.x as int, r.y as int) == pos_loc_spec(self@, pos as int, cfg.tab_width as int),
            r.y == row_of(self@, pos as int),
            r.y < self@.len(),
    {
        let ghost tw = cfg.tab_width as int;
        let rl = self.pos_to_rank_line(pos);
        let row = rl.y;
        let rank = rl.x;
        let ghost l = self@[row as int];
        let mut col: usize = 0;
        for j in 0..rank
            invariant
                self.wf(),
                cfg.wf(),
                tw == cfg.tab_width as int,
                row < self@.len(),
                l == self@[row as int],
                rank <= l.len(),
                widths_fit(self@, tw),
                col == width_upto(l, j as int, tw),
        {
            proof {
                lemma_width_step(l, j as int, tw);
                lemma_width_mono(l, j + 1, l.len() as int, tw);
            }
            let c = self.lines[row][j];
            if c == '\t' {
                col = col + (cfg.tab_width - col % cfg.tab_width);
            } else {
                col = col + 1;
            }
        }
        Loc { x: col, y: row }
    }

    /// Convert a display location to the absolute position it addresses:
    /// full rows above plus the character whose column run holds `x`,
    /// clamped to the end of the buffer.
    pub fn loc_pos(&self, loc: Loc, cfg: &Config) -> (r: usize)
        requires
            self.wf(),
            cfg.wf(),
            widths_fit(self@, cfg.tab_width as int),
        ensures
            r == loc_pos_spec(self@, loc.x as int, loc.y as int, cfg.tab_width as int),
            r <= self.spec_len(),
    {
        let ghost tw = cfg.tab_width as int;
        let n = self.lines.len();
        let y = if loc.y < n { loc.y } else { n };
        let mut base: usize = 0;
        assert(self@.take(0) =~= Seq::<Seq<char>>::empty());
        for i in 0..y
            invariant
                self.wf(),
                n == self@.len(),
                y <= n,
                base == line_start(self@, i as int),
        {
            proof {
                lemma_line_start_step(self@, i as int);
                lemma_line_start_bounds(self@, i as int + 1);
            }
            base = base + self.lines[i].len() + 1;
        }
        proof {
            lemma_line_start_bounds(self@, y as int);
        }
        let len = self.len();
        if loc.y >= n {
            proof {
                lemma_text_last(self@);
            }
            return if base <= len { base } else { len };
        }
        let ghost l = self@[loc.y as int];
        let m = self.lines[loc.y].len();
        let mut col: usize = 0;
        let mut rank: usize = 0;
        proof {
            lemma_width_mono(l, 0, l.len() as int, tw);
        }
        while rank < m
            invariant
                self.wf(),
                cfg.wf(),
                tw == cfg.tab_width as int,
                loc.y < self@.len(),
                l == self@[loc.y as int],
                m == l.len(),
                widths_fit(self@, tw),
                rank <= m,
                col == width_upto(l, rank as int, tw),
                rank_from(l, tw, 0, loc.x as int) == rank_from(l, tw, rank as int, loc.x as int),
                col <= loc.x,
            ensures
                rank <= m,
                col == width_upto(l, rank as int, tw),
                rank_from(l, tw, 0, loc.x as int) == rank_from(l, tw, rank as int, loc.x as int),
                col <= loc.x,
                rank == m || loc.x < width_upto(l, rank + 1, tw),
            decreases m - rank,
        {
            proof {
                lemma_width_step(l, rank as int, tw);
                lemma_width_mono(l, rank + 1, l.len() as int, tw);
            }
            let c = self.lines[loc.y][rank];
            let w: usize = if c == '\t' {
                cfg.tab_width - col % cfg.tab_width
            } else {
                1
            };
            if col + w > loc.x {
                break;
            }
            col = col + w;
            rank = rank + 1;
        }
        proof {
            assert(rank_at(l, loc.x as int, tw) == rank);
            lemma_line_start_bounds(self@, loc.y as int);
            lemma_text_last(self@);
        }
        let p = base + rank;
        if p <= len { p } else { len }
    }
}

impl Content {
    /// A deep copy with the same lines.
    pub fn duplicate(&self) -> (r: Content)
        ensures
            r@ == self@,
    {
        let mut lines: Vec<Vec<char>> = Vec::new();
        let n = self.lines.len();
        for i in 0..n
            invariant
                n == self@.len(),
                views(lines@).len() == i,
                forall|k: int| 0 <= k < i ==> #[trigger] views(lines@)[k] == self@[k],
        {
            let ghost lv0 = views(lines@);
            let copy = clone_chars(&self.lines[i]);
            let ghost cv = copy@;
            lines.push(copy);
            proof {
                assert(views(lines@) =~= lv0.push(cv));
            }
        }
        let r = Content { lines };
        proof {
            assert(r@ =~= self@);
        }
        r
    }
}

/// The index of the first newline in `t` (or `t.len()` when none).
pub open spec fn first_nl(t: Seq<char>) -> int
    decreases t.len(),
{
    if t.len() == 0 {
        0
    } else if t[0] == '\n' {
        0
    } else {
        1 + first_nl(t.drop_first())
    }
}

/// The lines that a character sequence denotes: the text between newlines,
/// with a final fragment lacking its newline kept as a line of its own.
pub open spec fn lines_of(t: Seq<char>) -> Seq<Seq<char>>
    decreases t.len(),
{
    if t.len() == 0 {
        Seq::empty()
    } else {
        let k = first_nl(t);
        if k < 0 || k >= t.len() {
            seq![t]
        } else {
            seq![t.take(k)] + lines_of(t.skip(k + 1))
        }
    }
}

/// The first newline of a line (which holds none) plus its newline and a
/// remainder stands right after the line.
pub proof fn lemma_first_nl_line(l: Seq<char>, rest: Seq<char>)
    requires
        line_ok(l),
    ensures
        first_nl(l.push('\n') + rest) == l.len(),
    decreases l.len(),
{
    let t = l.push('\n') + rest;
    if l.len() == 0 {
        assert(t[0] == '\n');
    } else {
        assert(t[0] == l[0]);
        assert(t[0] != '\n');
        assert(t.drop_first() =~= l.drop_first().push('\n') + rest);
        assert(line_ok(l.drop_first())) by {
            assert(forall|j: int|
                0 <= j < l.drop_first().len() ==> l.drop_first()[j] == l[j + 1]);
        }
        lemma_first_nl_line(l.drop_first(), rest);
    }
}

/// Reading a well-formed content's text back as lines gives the very same
/// lines: `lines_of` inverts `text_of`.
pub proof fn lemma_lines_of_text(ls: Seq<Seq<char>>)
    requires
        forall|i: int| 0 <= i < ls.len() ==> line_ok(#[trigger] ls[i]),
    ensures
        lines_of(text_of(ls)) == ls,
    decreases ls.len(),
{
    if ls.len() == 0 {
        assert(lines_of(text_of(ls)) =~= ls);
    } else {
        let t = text_of(ls);
        let l = ls[0];
        let rest = text_of(ls.drop_first());
        assert(t == l.push('\n') + rest);
        lemma_first_nl_line(l, rest);
        assert(first_nl(t) == l.len());
        assert(first_nl(t) < t.len());
        assert(t.take(l.len() as int) =~= l);
        assert(t.skip(l.len() as int + 1) =~= rest);
        assert(forall|i: int|
            0 <= i < ls.drop_first().len() ==> line_ok(#[trigger] ls.drop_first()[i]));
        lemma_lines_of_text(ls.drop_first());
        assert(seq![l] + ls.drop_first() =~= ls);
    }
}

impl Content {
    /// Splice `s` into row `row` at in-line offset `rank`, without touching
    /// any other row.
    pub fn splice_in_line(&mut self, row: usize, rank: usize, s: &Vec<char>)
        requires
            old(self).wf(),
            row < old(self)@.len(),
            rank <= old(self)@[row as int].len(),
            line_ok(s@),
            text_of(old(self)@).len() + s@.len() <= usize::MAX,
        ensures
            final(self).wf(),
            final(self)@ == old(self)@.update(
                row as int,
                old(self)@[row as int].take(rank as int) + s@ + old(self)@[row as int].skip(
                    rank as int,
                ),
            ),
            text_of(final(self)@) == text_of(old(self)@).take(
                line_start(old(self)@, row as int) + rank,
            ) + s@ + text_of(old(self)@).skip(line_start(old(self)@, row as int) + rank),
            final(self).spec_len() == old(self).spec_len() + s@.len(),
    {
        let ghost ls0 = self@;
        let ghost l = ls0[row as int];
        proof {
            lemma_text_around(ls0, row as int);
            lemma_line_start_bounds(ls0, row as int);
        }
        let mut line = self.lines.remove(row);
        let tail = line.split_off(rank);
        let mut mid = clone_chars(s);
        line.append(&mut mid);
        let mut tl = tail;
        line.append(&mut tl);
        self.lines.insert(row, line);
        proof {
            let l2 = l.take(rank as int) + s@ + l.skip(rank as int);
            assert(self@ =~= ls0.take(row as int) + seq![l2] + ls0.skip(row as int + 1));
            assert(self@ =~= ls0.update(row as int, l2));
            lemma_text_cat(ls0.take(row as int), seq![l2]);
            lemma_text_cat(ls0.take(row as int) + seq![l2], ls0.skip(row as int + 1));
            lemma_text_one(l2);
            assert(text_of(self@) =~= text_of(ls0).take(line_start(ls0, row as int) + rank) + s@
                + text_of(ls0).skip(line_start(ls0, row as int) + rank));
            assert(forall|i: int| 0 <= i < self@.len() ==> line_ok(#[trigger] self@[i]));
        }
    }
}

/// No character is wider than a tab stop, so a prefix of `i` characters is
/// at most `i * tab_width` columns wide.
pub proof fn lemma_width_le_len(l: Seq<char>, i: int, tab_width: int)
    requires
        tab_width >= 1,
        0 <= i,
    ensures
        width_upto(l, i, tab_width) <= i * tab_width,
    decreases i,
{
    if i > 0 {
        lemma_width_le_len(l, i - 1, tab_width);
        lemma_width_step(l, i - 1, tab_width);
        assert((i - 1) * tab_width + tab_width == i * tab_width) by (nonlinear_arith);
    }
}

/// A buffer whose total size times the tab width fits the machine has every
/// line's display width fit as well.
pub proof fn lemma_widths_fit_of_bound(ls: Seq<Seq<char>>, tab_width: int)
    requires
        tab_width >= 1,
        text_of(ls).len() * tab_width <= usize::MAX,
    ensures
        widths_fit(ls, tab_width),
{
    assert forall|row: int| 0 <= row < ls.len() implies line_width(
        #[trigger] ls[row],
        tab_width,
    ) <= usize::MAX by {
        lemma_line_start_bounds(ls, row);
        assert(ls[row].len() < text_of(ls).len());
        lemma_width_le_len(ls[row], ls[row].len() as int, tab_width);
        assert(ls[row].len() * tab_width <= text_of(ls).len() * tab_width) by (nonlinear_arith)
            requires ls[row].len() <= text_of(ls).len(), tab_width >= 1;
    }
}

} // verus!
