//! A shared buffer: one live state (content plus every live cursor), a
//! bounded, time-coalesced history of past states, a stack of future states
//! for redo, the backing file path and the dirty flag. All mutation of a
//! buffer's text goes through here, and every live cursor is rebased on
//! every edit.

use vstd::prelude::*;
use crate::content::Content;
use crate::content::Config;
use crate::content::Loc;
use crate::content::loc_pos_spec;
use crate::content::pos_loc_spec;
use crate::content::row_of;
use crate::content::line_start;
use crate::content::width_upto;
use crate::content::line_width;
use crate::content::widths_fit;
use crate::content::text_of;
use crate::content::lines_of;
use crate::event::Dir;
use crate::event::Event;
use crate::event::is_buffer_event;
use crate::event::is_mutating_event;
use crate::cursor::Cursor;
use crate::cursor::CharKind;
use crate::cursor::kind_of;
use crate::cursor::kinds_match;
use crate::cursor::shifted;

verus! {

/// Identity of one buffer within the registry.
#[derive(Copy, Clone, Debug, Hash, PartialEq, Eq, Structural)]
pub struct BufferId(pub usize);

/// Identity of one cursor within a buffer; buffer-local, never reused.
#[derive(Copy, Clone, Debug, Hash, PartialEq, Eq, Structural)]
pub struct CursorId(pub usize);

/// How many past states the undo history retains at most.
pub const MAX_UNDO_STATES: usize = 256;

/// Edits whose clock readings lie within this window coalesce into a single
/// undo step.
pub const COALESCE_WINDOW_MS: u64 = 300;

/// One buffer state: the content and the full set of live cursors. Cloned
/// wholesale as the unit of undo/redo.
pub struct BufState {
    pub content: Content,
    pub cursors: Vec<(CursorId, Cursor)>,
}

/// The mathematical value of a buffer state.
pub struct StateView {
    pub lines: Seq<Seq<char>>,
    pub cursors: Seq<(CursorId, Cursor)>,
}

impl View for BufState {
    type V = StateView;

    open spec fn view(&self) -> StateView {
        StateView { lines: self.content@, cursors: self.cursors@ }
    }
}

/// The cursor registered under `id`, if any; later entries win, though a
/// well-formed state never holds an identity twice.
pub open spec fn lookup(cs: Seq<(CursorId, Cursor)>, id: CursorId) -> Option<Cursor>
    decreases cs.len(),
{
    if cs.len() == 0 {
        None
    } else if cs.last().0 == id {
        Some(cs.last().1)
    } else {
        lookup(cs.drop_last(), id)
    }
}

/// No cursor identity occurs twice.
pub open spec fn ids_unique(cs: Seq<(CursorId, Cursor)>) -> bool {
    forall|i: int, j: int| 0 <= i < j < cs.len() ==> (#[trigger] cs[i]).0 != (#[trigger] cs[j]).0
}

/// Every cursor identity is at most `bound` (so a fresh counter above the
/// bound never collides).
pub open spec fn ids_bounded(cs: Seq<(CursorId, Cursor)>, bound: int) -> bool {
    forall|i: int| 0 <= i < cs.len() ==> (#[trigger] cs[i]).0.0 <= bound
}

/// Every cursor lies within `0..=len`.
pub open spec fn cursors_in(cs: Seq<(CursorId, Cursor)>, len: int) -> bool {
    forall|i: int|
        0 <= i < cs.len() ==> (#[trigger] cs[i]).1.pos <= len && cs[i].1.base <= len
}

/// A well-formed state: well-formed content and a duplicate-free cursor set
/// whose members all lie within the content.
pub open spec fn sv_wf(sv: StateView) -> bool {
    &&& sv.lines.len() >= 1
    &&& text_of(sv.lines).len() <= usize::MAX
    &&& (forall|i: int| 0 <= i < sv.lines.len() ==> crate::content::line_ok(#[trigger] sv.lines[i]))
    &&& ids_unique(sv.cursors)
    &&& cursors_in(sv.cursors, text_of(sv.lines).len() - 1)
}

pub proof fn lemma_lookup_present(cs: Seq<(CursorId, Cursor)>, i: int)
    requires
        ids_unique(cs),
        0 <= i < cs.len(),
    ensures
        lookup(cs, cs[i].0) == Some(cs[i].1),
    decreases cs.len(),
{
    if i < cs.len() - 1 {
        assert(cs.drop_last()[i] == cs[i]);
        lemma_lookup_present(cs.drop_last(), i);
    }
}

pub proof fn lemma_lookup_absent(cs: Seq<(CursorId, Cursor)>, id: CursorId)
    requires
        forall|i: int| 0 <= i < cs.len() ==> (#[trigger] cs[i]).0 != id,
    ensures
        lookup(cs, id) == None::<Cursor>,
    decreases cs.len(),
{
    if cs.len() > 0 {
        assert(forall|i: int|
            0 <= i < cs.drop_last().len() ==> (#[trigger] cs.drop_last()[i]).0 != id);
        lemma_lookup_absent(cs.drop_last(), id);
    }
}

/// Updating entry `i` changes only that identity's binding.
pub proof fn lemma_lookup_update(cs: Seq<(CursorId, Cursor)>, i: int, c: Cursor, id: CursorId)
    requires
        ids_unique(cs),
        0 <= i < cs.len(),
    ensures
        lookup(cs.update(i, (cs[i].0, c)), id) == if id == cs[i].0 {
            Some(c)
        } else {
            lookup(cs, id)
        },
        ids_unique(cs.update(i, (cs[i].0, c))),
    decreases cs.len(),
{
    let cs2 = cs.update(i, (cs[i].0, c));
    assert(forall|a: int, b: int|
        0 <= a < b < cs2.len() ==> (#[trigger] cs2[a]).0 != (#[trigger] cs2[b]).0);
    if i == cs.len() - 1 {
        assert(cs2.last() == (cs[i].0, c));
        assert(cs2.drop_last() =~= cs.drop_last());
        if id != cs[i].0 {
        }
    } else {
        assert(cs2.last() == cs.last());
        assert(cs2.drop_last() =~= cs.drop_last().update(i, (cs[i].0, c)));
        assert(cs.drop_last()[i] == cs[i]);
        lemma_lookup_update(cs.drop_last(), i, c, id);
    }
}

/// Removing entry `i` unbinds exactly that identity.
pub proof fn lemma_lookup_remove(cs: Seq<(CursorId, Cursor)>, i: int, id: CursorId)
    requires
        ids_unique(cs),
        0 <= i < cs.len(),
    ensures
        lookup(cs.remove(i), id) == if id == cs[i].0 {
            None::<Cursor>
        } else {
            lookup(cs, id)
        },
        ids_unique(cs.remove(i)),
    decreases cs.len(),
{
    let cs2 = cs.remove(i);
    assert(forall|a: int, b: int|
        0 <= a < b < cs2.len() ==> (#[trigger] cs2[a]).0 != (#[trigger] cs2[b]).0);
    if i == cs.len() - 1 {
        assert(cs2 =~= cs.drop_last());
        if id == cs[i].0 {
            assert(forall|k: int| 0 <= k < cs2.len() ==> (#[trigger] cs2[k]).0 != id);
            lemma_lookup_absent(cs2, id);
        }
    } else {
        assert(cs2.last() == cs.last());
        assert(cs2.drop_last() =~= cs.drop_last().remove(i));
        assert(cs.drop_last()[i] == cs[i]);
        lemma_lookup_remove(cs.drop_last(), i, id);
    }
}

/// A push binds the new identity and keeps all others.
pub proof fn lemma_lookup_push(cs: Seq<(CursorId, Cursor)>, id: CursorId, c: Cursor, q: CursorId)
    ensures
        lookup(cs.push((id, c)), q) == if q == id {
            Some(c)
        } else {
            lookup(cs, q)
        },
{
    assert(cs.push((id, c)).drop_last() =~= cs);
}

/// Whether some entry binds `id`.
pub open spec fn has_id(cs: Seq<(CursorId, Cursor)>, id: CursorId) -> bool {
    exists|i: int| 0 <= i < cs.len() && (#[trigger] cs[i]).0 == id
}

/// The index binding `id` (meaningful only under `has_id` and uniqueness).
pub open spec fn index_of_id(cs: Seq<(CursorId, Cursor)>, id: CursorId) -> int {
    choose|i: int| 0 <= i < cs.len() && (#[trigger] cs[i]).0 == id
}

/// Bind `id` to `c`: in place if present, appended otherwise.
pub open spec fn upsert1(cs: Seq<(CursorId, Cursor)>, id: CursorId, c: Cursor) -> Seq<
    (CursorId, Cursor),
> {
    if has_id(cs, id) {
        cs.update(index_of_id(cs, id), (id, c))
    } else {
        cs.push((id, c))
    }
}

/// Merge a snapshot's cursors into the live set: every snapshot binding is
/// upserted, in order; live-only bindings stay.
pub open spec fn merge_cursors(
    live: Seq<(CursorId, Cursor)>,
    snap: Seq<(CursorId, Cursor)>,
) -> Seq<(CursorId, Cursor)>
    decreases snap.len(),
{
    if snap.len() == 0 {
        live
    } else {
        upsert1(merge_cursors(live, snap.drop_last()), snap.last().0, snap.last().1)
    }
}

/// Both cursor ends clamped into `0..=len`.
pub open spec fn clamp_cursor(c: Cursor, len: int) -> Cursor {
    Cursor {
        base: if c.base <= len { c.base } else { len as usize },
        pos: if c.pos <= len { c.pos } else { len as usize },
        preferred_x: c.preferred_x,
    }
}

/// Every entry clamped into `0..=len`.
pub open spec fn clamp_all(cs: Seq<(CursorId, Cursor)>, len: int) -> Seq<(CursorId, Cursor)> {
    cs.map_values(|e: (CursorId, Cursor)| (e.0, clamp_cursor(e.1, len)))
}

pub proof fn lemma_lookup_upsert1(
    cs: Seq<(CursorId, Cursor)>,
    id: CursorId,
    c: Cursor,
    q: CursorId,
)
    requires
        ids_unique(cs),
    ensures
        ids_unique(upsert1(cs, id, c)),
        lookup(upsert1(cs, id, c), q) == if q == id {
            Some(c)
        } else {
            lookup(cs, q)
        },
        has_id(upsert1(cs, id, c), q) == (q == id || has_id(cs, q)),
{
    if has_id(cs, id) {
        let i = index_of_id(cs, id);
        lemma_lookup_update(cs, i, c, q);
        let cs2 = cs.update(i, (cs[i].0, c));
        assert(upsert1(cs, id, c) == cs2);
        if q == id {
            assert(cs2[i].0 == id);
        } else {
            if has_id(cs2, q) {
                let k = choose|k: int| 0 <= k < cs2.len() && (#[trigger] cs2[k]).0 == q;
                assert(cs[k].0 == q);
            }
            if has_id(cs, q) {
                let k = choose|k: int| 0 <= k < cs.len() && (#[trigger] cs[k]).0 == q;
                assert(cs2[k].0 == q);
            }
        }
    } else {
        lemma_lookup_push(cs, id, c, q);
        assert(forall|i: int| 0 <= i < cs.len() ==> (#[trigger] cs[i]).0 != id);
        let cs2 = cs.push((id, c));
        assert(forall|a: int, b: int|
            0 <= a < b < cs2.len() ==> (#[trigger] cs2[a]).0 != (#[trigger] cs2[b]).0);
        assert(cs2[cs.len() as int].0 == id);
        if q != id && has_id(cs2, q) {
            let k = choose|k: int| 0 <= k < cs2.len() && (#[trigger] cs2[k]).0 == q;
            assert(cs[k].0 == q);
        }
        if q != id && has_id(cs, q) {
            let k = choose|k: int| 0 <= k < cs.len() && (#[trigger] cs[k]).0 == q;
            assert(cs2[k].0 == q);
        }
    }
}

/// After a merge, snapshot bindings win and live-only bindings survive.
pub proof fn lemma_lookup_merge(
    live: Seq<(CursorId, Cursor)>,
    snap: Seq<(CursorId, Cursor)>,
    q: CursorId,
)
    requires
        ids_unique(live),
        ids_unique(snap),
    ensures
        ids_unique(merge_cursors(live, snap)),
        lookup(merge_cursors(live, snap), q) == if has_id(snap, q) {
            lookup(snap, q)
        } else {
            lookup(live, q)
        },
        has_id(merge_cursors(live, snap), q) == (has_id(snap, q) || has_id(live, q)),
    decreases snap.len(),
{
    if snap.len() == 0 {
        if has_id(snap, q) {
            let k = choose|k: int| 0 <= k < snap.len() && (#[trigger] snap[k]).0 == q;
            assert(false);
        }
        if has_id(live, q) {
            let k = choose|k: int| 0 <= k < live.len() && (#[trigger] live[k]).0 == q;
            lemma_lookup_present(live, k);
        } else {
            assert(forall|i: int| 0 <= i < live.len() ==> (#[trigger] live[i]).0 != q);
            lemma_lookup_absent(live, q);
        }
    } else {
        let front = snap.drop_last();
        assert(ids_unique(front)) by {
            assert(forall|a: int, b: int|
                0 <= a < b < front.len() ==> (#[trigger] front[a]).0 != (#[trigger] front[b]).0);
        }
        lemma_lookup_merge(live, front, q);
        lemma_lookup_upsert1(merge_cursors(live, front), snap.last().0, snap.last().1, q);
        if q == snap.last().0 {
            lemma_lookup_present(snap, snap.len() - 1);
        } else {
            if has_id(snap, q) {
                let k = choose|k: int| 0 <= k < snap.len() && (#[trigger] snap[k]).0 == q;
                assert(k < snap.len() - 1);
                assert(front[k].0 == q);
                lemma_lookup_present(snap, k);
                lemma_lookup_present(front, k);
            } else {
                assert(!has_id(front, q)) by {
                    if has_id(front, q) {
                        let k = choose|k: int|
                            0 <= k < front.len() && (#[trigger] front[k]).0 == q;
                        assert(snap[k].0 == q);
                    }
                }
            }
        }
    }
}

/// Clamping touches no identity and moves no in-range cursor.
pub proof fn lemma_lookup_clamp(cs: Seq<(CursorId, Cursor)>, len: int, q: CursorId)
    requires
        ids_unique(cs),
        len >= 0,
    ensures
        ids_unique(clamp_all(cs, len)),
        cursors_in(clamp_all(cs, len), len),
        lookup(clamp_all(cs, len), q) == match lookup(cs, q) {
            Some(c) => Some(clamp_cursor(c, len)),
            None => None::<Cursor>,
        },
        has_id(clamp_all(cs, len), q) == has_id(cs, q),
    decreases cs.len(),
{
    let cs2 = clamp_all(cs, len);
    assert(cs2.len() == cs.len());
    assert(forall|i: int| 0 <= i < cs.len() ==> #[trigger] cs2[i] == (cs[i].0, clamp_cursor(
        cs[i].1,
        len,
    )));
    assert(forall|a: int, b: int|
        0 <= a < b < cs2.len() ==> (#[trigger] cs2[a]).0 != (#[trigger] cs2[b]).0);
    assert(forall|i: int|
        0 <= i < cs2.len() ==> (#[trigger] cs2[i]).1.pos <= len && cs2[i].1.base <= len);
    if cs.len() > 0 {
        assert(cs2.last() == (cs.last().0, clamp_cursor(cs.last().1, len)));
        if cs.last().0 == q {
        } else {
            assert(cs2.drop_last() =~= clamp_all(cs.drop_last(), len));
            assert(ids_unique(cs.drop_last())) by {
                let front = cs.drop_last();
                assert(forall|a: int, b: int|
                    0 <= a < b < front.len() ==> (#[trigger] front[a]).0 != (
                    #[trigger] front[b]).0);
            }
            lemma_lookup_clamp(cs.drop_last(), len, q);
        }
        if has_id(cs2, q) && !has_id(cs, q) {
            let k = choose|k: int| 0 <= k < cs2.len() && (#[trigger] cs2[k]).0 == q;
            assert(cs[k].0 == q);
        }
        if has_id(cs, q) && !has_id(cs2, q) {
            let k = choose|k: int| 0 <= k < cs.len() && (#[trigger] cs[k]).0 == q;
            assert(cs2[k].0 == q);
        }
    } else {
        assert(cs2.len() == 0);
        if has_id(cs2, q) {
            let k = choose|k: int| 0 <= k < cs2.len() && (#[trigger] cs2[k]).0 == q;
            assert(false);
        }
        if has_id(cs, q) {
            let k = choose|k: int| 0 <= k < cs.len() && (#[trigger] cs[k]).0 == q;
            assert(false);
        }
    }
}

/// The state that aligning the live state with a snapshot produces: the
/// snapshot's content outright; the live cursor set with every snapshot
/// cursor upserted, every end clamped into the new content.
pub open spec fn align_sv(live: StateView, snap: StateView) -> StateView {
    StateView {
        lines: snap.lines,
        cursors: clamp_all(
            merge_cursors(live.cursors, snap.cursors),
            text_of(snap.lines).len() - 1,
        ),
    }
}

/// Aligning preserves well-formedness.
pub proof fn lemma_align_wf(live: StateView, snap: StateView)
    requires
        sv_wf(live),
        sv_wf(snap),
    ensures
        sv_wf(align_sv(live, snap)),
{
    let len = text_of(snap.lines).len() - 1;
    crate::content::lemma_text_last(snap.lines);
    lemma_lookup_merge(live.cursors, snap.cursors, CursorId(0));
    lemma_lookup_clamp(merge_cursors(live.cursors, snap.cursors), len, CursorId(0));
}

/// Law: undo followed immediately by redo restores the exact prior content,
/// restores every cursor of the pre-undo state to its exact prior value, and
/// discards no cursor that the undone state held.
pub proof fn lemma_undo_redo(cur: StateView, top: StateView)
    requires
        sv_wf(cur),
        sv_wf(top),
    ensures
        align_sv(align_sv(cur, top), cur).lines == cur.lines,
        forall|id: CursorId|
            #[trigger] lookup(cur.cursors, id) is Some ==> lookup(
                align_sv(align_sv(cur, top), cur).cursors,
                id,
            ) == lookup(cur.cursors, id),
        forall|id: CursorId|
            has_id(align_sv(cur, top).cursors, id) ==> has_id(
                #[trigger] align_sv(align_sv(cur, top), cur).cursors,
                id,
            ),
{
    let len_cur = text_of(cur.lines).len() - 1;
    let len_top = text_of(top.lines).len() - 1;
    crate::content::lemma_text_last(cur.lines);
    crate::content::lemma_text_last(top.lines);
    let a = align_sv(cur, top);
    lemma_align_wf(cur, top);
    let c = align_sv(a, cur);
    lemma_align_wf(a, cur);
    assert forall|id: CursorId| lookup(cur.cursors, id) is Some implies lookup(c.cursors, id)
        == lookup(cur.cursors, id) by {
        lemma_lookup_merge(a.cursors, cur.cursors, id);
        lemma_lookup_clamp(merge_cursors(a.cursors, cur.cursors), len_cur, id);
        let cv = lookup(cur.cursors, id)->Some_0;
        lemma_has_of_lookup(cur.cursors, id);
        let k = choose|k: int| 0 <= k < cur.cursors.len() && (#[trigger] cur.cursors[k]).0 == id;
        lemma_lookup_present(cur.cursors, k);
        assert(cv == cur.cursors[k].1);
        assert(cv.pos <= len_cur && cv.base <= len_cur);
        assert(clamp_cursor(cv, len_cur) == cv);
    }
    assert forall|id: CursorId| has_id(a.cursors, id) implies has_id(c.cursors, id) by {
        lemma_lookup_merge(a.cursors, cur.cursors, id);
        lemma_lookup_clamp(merge_cursors(a.cursors, cur.cursors), len_cur, id);
    }
}

/// A successful lookup means the identity is present.
pub proof fn lemma_has_of_lookup(cs: Seq<(CursorId, Cursor)>, id: CursorId)
    ensures
        lookup(cs, id) is Some ==> has_id(cs, id),
        has_id(cs, id) && ids_unique(cs) ==> lookup(cs, id) is Some,
    decreases cs.len(),
{
    if cs.len() > 0 {
        lemma_has_of_lookup(cs.drop_last(), id);
        if cs.last().0 == id {
            assert(cs[cs.len() - 1].0 == id);
        } else {
            if has_id(cs.drop_last(), id) {
                let k = choose|k: int|
                    0 <= k < cs.drop_last().len() && (#[trigger] cs.drop_last()[k]).0 == id;
                assert(cs[k].0 == id);
            }
            if has_id(cs, id) && ids_unique(cs) {
                let k = choose|k: int| 0 <= k < cs.len() && (#[trigger] cs[k]).0 == id;
                assert(k < cs.len() - 1);
                assert(cs.drop_last()[k].0 == id);
                assert(ids_unique(cs.drop_last())) by {
                    let front = cs.drop_last();
                    assert(forall|x: int, y: int|
                        0 <= x < y < front.len() ==> (#[trigger] front[x]).0 != (
                        #[trigger] front[y]).0);
                }
            }
        }
    }
}

impl BufState {
    /// A deep copy of this state, taken as the unit of undo/redo.
    pub fn snapshot(&self) -> (r: BufState)
        ensures
            r@ == self@,
    {
        let content = self.content.duplicate();
        let mut cursors: Vec<(CursorId, Cursor)> = Vec::new();
        let n = self.cursors.len();
        for i in 0..n
            invariant
                n == self.cursors@.len(),
                cursors@ == self.cursors@.take(i as int),
        {
            cursors.push(self.cursors[i]);
            proof {
                assert(self.cursors@.take(i as int).push(self.cursors@[i as int]) =~= self
                    .cursors@.take(i + 1));
            }
        }
        proof {
            assert(self.cursors@.take(n as int) =~= self.cursors@);
        }
        BufState { content, cursors }
    }

    /// Merge a historical state into this one under the undo/redo rules:
    /// take its content outright, upsert each of its cursors (never deleting
    /// a live one), and clamp every cursor into the new content.
    pub fn align_with(&mut self, other: BufState)
        requires
            sv_wf(old(self)@),
            sv_wf(other@),
        ensures
            final(self)@ == align_sv(old(self)@, other@),
            sv_wf(final(self)@),
    {
        proof {
            lemma_align_wf(old(self)@, other@);
        }
        let BufState { content, cursors } = other;
        let ghost live0 = self.cursors@;
        let ghost snapc = cursors@;
        let ghost snapl = content@;
        self.content = content;
        let n = cursors.len();
        for k in 0..n
            invariant
                n == snapc.len(),
                cursors@ == snapc,
                ids_unique(snapc),
                ids_unique(self.cursors@),
                self.content@ == snapl,
                self.cursors@ == merge_cursors(live0, snapc.take(k as int)),
        {
            let (id, c) = cursors[k];
            let ghost before = self.cursors@;
            proof {
                assert(ids_unique(snapc.take(k as int))) by {
                    let t = snapc.take(k as int);
                    assert(forall|a: int, b: int|
                        0 <= a < b < t.len() ==> (#[trigger] t[a]).0 != (#[trigger] t[b]).0);
                }
                lemma_lookup_upsert1(before, id, c, id);
            }
            let found = self.find_cursor_index(id);
            match found {
                Some(i) => {
                    self.cursors[i] = (id, c);
                    proof {
                        assert(has_id(before, id)) by {
                            assert(before[i as int].0 == id);
                        }
                        let j = index_of_id(before, id);
                        assert(before[j].0 == id);
                        if i as int != j {
                            assert(before[i as int].0 == before[j].0);
                            assert(false);
                        }
                        assert(self.cursors@ =~= upsert1(before, id, c));
                    }
                },
                None => {
                    self.cursors.push((id, c));
                    proof {
                        if has_id(before, id) {
                            let j = index_of_id(before, id);
                            assert(before[j].0 == id);
                            assert(false);
                        }
                        assert(self.cursors@ =~= upsert1(before, id, c));
                    }
                },
            }
            proof {
                assert(snapc.take(k + 1).drop_last() =~= snapc.take(k as int));
                assert(snapc.take(k + 1).last() == snapc[k as int]);
            }
        }
        proof {
            assert(snapc.take(n as int) =~= snapc);
        }
        proof {
            assert(self.content.wf());
        }
        let len = self.content.len();
        let m = self.cursors.len();
        let ghost merged = self.cursors@;
        for i in 0..m
            invariant
                m == merged.len(),
                self.content@ == snapl,
                len == text_of(self.content@).len() - 1,
                self.cursors@.len() == merged.len(),
                forall|k: int|
                    0 <= k < i ==> #[trigger] self.cursors@[k] == (merged[k].0, clamp_cursor(
                        merged[k].1,
                        len as int,
                    )),
                forall|k: int| i <= k < merged.len() ==> #[trigger] self.cursors@[k] == merged[k],
        {
            let (id, mut c) = self.cursors[i];
            if c.pos > len {
                c.pos = len;
            }
            if c.base > len {
                c.base = len;
            }
            self.cursors[i] = (id, c);
        }
        proof {
            assert(self.cursors@ =~= clamp_all(merged, len as int));
        }
    }

    /// The index of the entry binding `id`, if any.
    fn find_cursor_index(&self, id: CursorId) -> (r: Option<usize>)
        ensures
            match r {
                Some(i) => i < self.cursors@.len() && self.cursors@[i as int].0 == id,
                None => !has_id(self.cursors@, id),
            },
    {
        let n = self.cursors.len();
        for i in 0..n
            invariant
                n == self.cursors@.len(),
                forall|k: int| 0 <= k < i ==> (#[trigger] self.cursors@[k]).0 != id,
        {
            if self.cursors[i].0 == id {
                return Some(i);
            }
        }
        proof {
            if has_id(self.cursors@, id) {
                let k = choose|k: int|
                    0 <= k < self.cursors@.len() && (#[trigger] self.cursors@[k]).0 == id;
                assert(false);
            }
        }
        None
    }
}

/// The owner of one buffer's live state, history, path and dirty flag.
pub struct SharedBuffer {
    state: BufState,
    past_states: Vec<(BufState, Option<u64>)>,
    future_states: Vec<BufState>,
    config: crate::content::Config,
    pub path: Option<String>,
    cursor_id_counter: usize,
    unsaved: bool,
}

/// A well-formed history entry under the id counter `bound`.
pub open spec fn entry_wf(sv: StateView, bound: int) -> bool {
    sv_wf(sv) && ids_bounded(sv.cursors, bound)
}

impl SharedBuffer {
    /// The live state's mathematical value.
    pub closed spec fn sview(self) -> StateView {
        self.state@
    }

    /// The past states, oldest first; each paired with the coalescing clock
    /// reading under which it was pushed, if any.
    pub closed spec fn pastv(self) -> Seq<(StateView, Option<u64>)> {
        self.past_states@.map_values(|e: (BufState, Option<u64>)| (e.0@, e.1))
    }

    /// The future (redo) states, oldest first.
    pub closed spec fn futurev(self) -> Seq<StateView> {
        self.future_states@.map_values(|st: BufState| st@)
    }

    /// The live text.
    pub closed spec fn text(self) -> Seq<char> {
        text_of(self.state@.lines)
    }

    /// The live buffer length (text minus the final synthetic newline).
    pub closed spec fn spec_len(self) -> int {
        self.text().len() - 1
    }

    /// The live cursor entries.
    pub closed spec fn cursors(self) -> Seq<(CursorId, Cursor)> {
        self.state@.cursors
    }

    /// The configuration in force.
    pub closed spec fn cfg(self) -> crate::content::Config {
        self.config
    }

    /// Whether the buffer holds unsaved changes.
    pub closed spec fn dirty(self) -> bool {
        self.unsaved
    }

    pub closed spec fn wf(self) -> bool {
        &&& self.config.wf()
        &&& entry_wf(self.state@, self.cursor_id_counter as int)
        &&& forall|i: int|
            0 <= i < self.pastv().len() ==> entry_wf(
                (#[trigger] self.pastv()[i]).0,
                self.cursor_id_counter as int,
            )
        &&& forall|i: int|
            0 <= i < self.futurev().len() ==> entry_wf(
                #[trigger] self.futurev()[i],
                self.cursor_id_counter as int,
            )
        &&& self.pastv().len() + self.futurev().len() <= MAX_UNDO_STATES
    }

    /// Administrative fields (path, configuration, id counter) untouched.
    pub closed spec fn admin_eq(self, other: SharedBuffer) -> bool {
        &&& self.path == other.path
        &&& self.config == other.config
        &&& self.cursor_id_counter == other.cursor_id_counter
    }

    /// History (past and future stacks) untouched.
    pub closed spec fn history_eq(self, other: SharedBuffer) -> bool {
        self.pastv() == other.pastv() && self.futurev() == other.futurev()
    }
}

/// Merging keeps every identity within the bound of its sources.
pub proof fn lemma_merge_ids_bounded(
    live: Seq<(CursorId, Cursor)>,
    snap: Seq<(CursorId, Cursor)>,
    bound: int,
)
    requires
        ids_bounded(live, bound),
        ids_bounded(snap, bound),
    ensures
        ids_bounded(merge_cursors(live, snap), bound),
    decreases snap.len(),
{
    if snap.len() > 0 {
        let front = snap.drop_last();
        assert(ids_bounded(front, bound)) by {
            assert(forall|i: int| 0 <= i < front.len() ==> (#[trigger] front[i]).0.0 <= bound);
        }
        lemma_merge_ids_bounded(live, front, bound);
        let m = merge_cursors(live, front);
        let e = snap.last();
        assert(e.0.0 <= bound);
        let m2 = upsert1(m, e.0, e.1);
        assert(ids_bounded(m2, bound)) by {
            if has_id(m, e.0) {
                assert(forall|i: int| 0 <= i < m2.len() ==> (#[trigger] m2[i]).0.0 <= bound);
            } else {
                assert(forall|i: int| 0 <= i < m2.len() ==> (#[trigger] m2[i]).0.0 <= bound);
            }
        }
    }
}

/// Clamping keeps every identity.
pub proof fn lemma_clamp_ids_bounded(cs: Seq<(CursorId, Cursor)>, len: int, bound: int)
    requires
        ids_bounded(cs, bound),
    ensures
        ids_bounded(clamp_all(cs, len), bound),
{
    let cs2 = clamp_all(cs, len);
    assert(forall|i: int| 0 <= i < cs2.len() ==> (#[trigger] cs2[i]).0.0 <= bound);
}

/// The past stack after a push, trimmed to the retention cap by dropping the
/// oldest entries.
pub open spec fn trimmed(p: Seq<(StateView, Option<u64>)>) -> Seq<(StateView, Option<u64>)> {
    if p.len() > MAX_UNDO_STATES {
        p.skip(p.len() - MAX_UNDO_STATES as int)
    } else {
        p
    }
}

/// Whether a clock reading `now` coalesces with a history entry stamped
/// `ts`: within the window, never across a clock that moved backwards.
pub open spec fn coalesces(ts_opt: Option<u64>, now: u64) -> bool {
    match ts_opt {
        Some(ts) => ts <= now && now - ts <= COALESCE_WINDOW_MS,
        None => false,
    }
}

impl SharedBuffer {
    /// A fresh scratch buffer: one empty line, no cursors, no history, no
    /// path, marked unsaved.
    pub fn new_scratch() -> (r: SharedBuffer)
        ensures
            r.wf(),
            r.text() == seq!['\n'],
            r.cursors().len() == 0,
            r.pastv().len() == 0,
            r.futurev().len() == 0,
            r.spec_path() is None,
            r.dirty(),
            r.counter() == 0,
            r.cfg().tab_width == 4 && !r.cfg().hard_tabs && r.cfg().auto_indent
                && !r.cfg().insert_matching,
    {
        let content = Content::default();
        proof {
            crate::content::lemma_text_one(Seq::<char>::empty());
            assert(seq![Seq::<char>::empty()].drop_first() =~= Seq::<Seq<char>>::empty());
            assert(Seq::<char>::empty().push('\n') =~= seq!['\n']);
        }
        let r = SharedBuffer {
            state: BufState { content, cursors: Vec::new() },
            past_states: Vec::new(),
            future_states: Vec::new(),
            config: crate::content::Config::default(),
            path: None,
            cursor_id_counter: 0,
            unsaved: true,
        };
        proof {
            assert(r.pastv() =~= Seq::<(StateView, Option<u64>)>::empty());
            assert(r.futurev() =~= Seq::<StateView>::empty());
        }
        r
    }

    /// A buffer loaded from already-read text: the compute half of opening a
    /// file. The caller supplies the path and whether the text is already on
    /// disk.
    pub fn with_content(content: Content, path: Option<String>, unsaved: bool) -> (r: SharedBuffer)
        requires
            content.wf(),
        ensures
            r.wf(),
            r.text() == text_of(content@),
            r.cursors().len() == 0,
            r.pastv().len() == 0,
            r.futurev().len() == 0,
            r.spec_path() == path,
            r.dirty() == unsaved,
            r.counter() == 0,
            r.cfg().tab_width == 4 && !r.cfg().hard_tabs && r.cfg().auto_indent
                && !r.cfg().insert_matching,
    {
        let r = SharedBuffer {
            state: BufState { content, cursors: Vec::new() },
            past_states: Vec::new(),
            future_states: Vec::new(),
            config: crate::content::Config::default(),
            path,
            cursor_id_counter: 0,
            unsaved,
        };
        proof {
            assert(r.pastv() =~= Seq::<(StateView, Option<u64>)>::empty());
            assert(r.futurev() =~= Seq::<StateView>::empty());
        }
        r
    }

    /// Replace the configuration.
    pub fn set_config(&mut self, config: crate::content::Config)
        requires
            old(self).wf(),
            config.wf(),
        ensures
            final(self).wf(),
            final(self).cfg() == config,
            final(self).sview() == old(self).sview(),
            final(self).history_eq(*old(self)),
            final(self).dirty() == old(self).dirty(),
            final(self).spec_path() == old(self).spec_path(),
            final(self).counter() == old(self).counter(),
    {
        self.config = config;
        proof {
            assert(self.pastv() =~= old(self).pastv());
            assert(self.futurev() =~= old(self).futurev());
        }
    }

    /// Read the configuration.
    pub fn config(&self) -> (r: &crate::content::Config)
        ensures
            *r == self.cfg(),
    {
        &self.config
    }

    /// The live content.
    pub fn content(&self) -> (r: &Content)
        ensures
            r@ == self.sview().lines,
    {
        &self.state.content
    }

    /// The buffer length: positions `0..=len()` are valid.
    pub fn len(&self) -> (r: usize)
        requires
            self.wf(),
        ensures
            r == self.spec_len(),
    {
        self.state.content.len()
    }

    /// Whether the buffer holds changes not yet written out.
    pub fn is_unsaved(&self) -> (r: bool)
        ensures
            r == self.dirty(),
    {
        self.unsaved
    }

    /// Note that the buffer's text now matches what is on disk; called by
    /// the caller that performed the actual write, with the canonical path
    /// it wrote to.
    pub fn mark_saved(&mut self, canonical_path: Option<String>)
        requires
            old(self).wf(),
        ensures
            final(self).wf(),
            !final(self).dirty(),
            final(self).spec_path() == canonical_path,
            final(self).sview() == old(self).sview(),
            final(self).history_eq(*old(self)),
            final(self).cfg() == old(self).cfg(),
    {
        self.unsaved = false;
        self.path = canonical_path;
        proof {
            assert(self.pastv() =~= old(self).pastv());
            assert(self.futurev() =~= old(self).futurev());
        }
    }

    /// Whether a cursor is registered under `id`.
    pub fn has_cursor(&self, id: CursorId) -> (r: bool)
        requires
            self.wf(),
        ensures
            r == has_id(self.cursors(), id),
            r == (lookup(self.cursors(), id) is Some),
    {
        proof {
            lemma_has_of_lookup(self.cursors(), id);
        }
        match self.state.find_cursor_index(id) {
            Some(i) => {
                proof {
                    assert(has_id(self.cursors(), id)) by {
                        assert(self.cursors()[i as int].0 == id);
                    }
                }
                true
            },
            None => false,
        }
    }

    /// The cursor registered under `id`.
    pub fn cursor(&self, id: CursorId) -> (r: Cursor)
        requires
            self.wf(),
            has_id(self.cursors(), id),
        ensures
            lookup(self.cursors(), id) == Some(r),
            r.pos <= self.spec_len(),
            r.base <= self.spec_len(),
    {
        let i = match self.state.find_cursor_index(id) {
            Some(i) => i,
            None => {
                proof {
                    assert(false);
                }
                0
            },
        };
        proof {
            lemma_lookup_present(self.cursors(), i as int);
        }
        self.state.cursors[i].1
    }

    /// Register a new cursor under a fresh identity, which is returned.
    pub fn insert_cursor(&mut self, cursor: Cursor) -> (id: CursorId)
        requires
            old(self).wf(),
            old(self).counter() < usize::MAX,
            cursor.pos <= old(self).spec_len(),
            cursor.base <= old(self).spec_len(),
        ensures
            final(self).wf(),
            final(self).counter() == old(self).counter() + 1,
            id.0 == old(self).counter() + 1,
            final(self).cursors() == old(self).cursors().push((id, cursor)),
            lookup(final(self).cursors(), id) == Some(cursor),
            !has_id(old(self).cursors(), id),
            final(self).sview().lines == old(self).sview().lines,
            final(self).text() == old(self).text(),
            final(self).spec_len() == old(self).spec_len(),
            final(self).history_eq(*old(self)),
            final(self).admin_keep(*old(self)),
            final(self).dirty() == old(self).dirty(),
    {
        self.cursor_id_counter = self.cursor_id_counter + 1;
        let id = CursorId(self.cursor_id_counter);
        proof {
            if has_id(old(self).cursors(), id) {
                let k = choose|k: int|
                    0 <= k < old(self).cursors().len() && (#[trigger] old(self).cursors()[k]).0
                        == id;
                assert(false);
            }
            lemma_lookup_push(old(self).cursors(), id, cursor, id);
        }
        self.state.cursors.push((id, cursor));
        proof {
            let cs2 = self.cursors();
            assert(forall|a: int, b: int|
                0 <= a < b < cs2.len() ==> (#[trigger] cs2[a]).0 != (#[trigger] cs2[b]).0);
            assert(self.pastv() =~= old(self).pastv());
            assert(self.futurev() =~= old(self).futurev());
        }
        id
    }

    /// Drop the cursor registered under `id`, if any.
    pub fn remove_cursor(&mut self, id: CursorId)
        requires
            old(self).wf(),
        ensures
            final(self).wf(),
            !has_id(final(self).cursors(), id),
            forall|q: CursorId|
                q != id ==> #[trigger] lookup(final(self).cursors(), q) == lookup(
                    old(self).cursors(),
                    q,
                ),
            final(self).sview().lines == old(self).sview().lines,
            final(self).history_eq(*old(self)),
            final(self).admin_keep(*old(self)),
            final(self).counter() == old(self).counter(),
            final(self).dirty() == old(self).dirty(),
    {
        match self.state.find_cursor_index(id) {
            Some(i) => {
                let ghost cs0 = self.cursors();
                self.state.cursors.remove(i);
                proof {
                    assert forall|q: CursorId| q != id implies #[trigger] lookup(
                        self.cursors(),
                        q,
                    ) == lookup(cs0, q) by {
                        lemma_lookup_remove(cs0, i as int, q);
                    }
                    lemma_lookup_remove(cs0, i as int, id);
                    if has_id(self.cursors(), id) {
                        lemma_has_of_lookup(self.cursors(), id);
                    }
                    assert(self.pastv() =~= old(self).pastv());
                    assert(self.futurev() =~= old(self).futurev());
                }
            },
            None => {},
        }
    }


    /// The backing file path, if any.
    pub closed spec fn spec_path(self) -> Option<String> {
        self.path
    }

    /// The cursor-identity counter (only grows; fresh ids exceed it).
    pub closed spec fn counter(self) -> int {
        self.cursor_id_counter as int
    }

    /// Path and configuration untouched (the id counter may advance).
    pub closed spec fn admin_keep(self, other: SharedBuffer) -> bool {
        self.path == other.path && self.config == other.config
    }
}

impl SharedBuffer {
    /// Apply a content change to every live cursor: each end at or past the
    /// edit shifts by `dist`, clamped at the edit position.
    fn shift_all(&mut self, pos: usize, dist: isize)
        requires
            -(isize::MAX as int) <= dist,
            dist >= 0 ==> cursors_in(old(self).cursors(), usize::MAX - dist),
        ensures
            final(self).cursors().len() == old(self).cursors().len(),
            forall|i: int|
                0 <= i < old(self).cursors().len() ==> #[trigger] final(self).cursors()[i] == (
                    old(self).cursors()[i].0,
                    Cursor {
                        base: shifted(old(self).cursors()[i].1.base as int, pos as int, dist as int) as usize,
                        pos: shifted(old(self).cursors()[i].1.pos as int, pos as int, dist as int) as usize,
                        preferred_x: old(self).cursors()[i].1.preferred_x,
                    },
                ),
            final(self).sview().lines == old(self).sview().lines,
            final(self).history_eq(*old(self)),
            final(self).admin_eq(*old(self)),
            final(self).dirty() == old(self).dirty(),
    {
        let n = self.state.cursors.len();
        let ghost cs0 = self.cursors();
        let ghost p0 = self.past_states@;
        let ghost f0 = self.future_states@;
        let ghost l0 = self.state.content;
        let ghost cfg0 = self.config;
        let ghost path0 = self.path;
        let ghost ctr0 = self.cursor_id_counter;
        let ghost d0 = self.unsaved;
        for i in 0..n
            invariant
                n == cs0.len(),
                self.past_states@ == p0,
                self.future_states@ == f0,
                self.state.content == l0,
                self.config == cfg0,
                self.path == path0,
                self.cursor_id_counter == ctr0,
                self.unsaved == d0,
                self.state.cursors@.len() == n,
                -(isize::MAX as int) <= dist,
                dist >= 0 ==> cursors_in(cs0, usize::MAX - dist),
                forall|k: int|
                    0 <= k < i ==> #[trigger] self.state.cursors@[k] == (
                        cs0[k].0,
                        Cursor {
                            base: shifted(cs0[k].1.base as int, pos as int, dist as int) as usize,
                            pos: shifted(cs0[k].1.pos as int, pos as int, dist as int) as usize,
                            preferred_x: cs0[k].1.preferred_x,
                        },
                    ),
                forall|k: int| i <= k < n ==> #[trigger] self.state.cursors@[k] == cs0[k],
        {
            let (id, mut c) = self.state.cursors[i];
            c.shift_relative_to(pos, dist);
            self.state.cursors[i] = (id, c);
        }
        proof {
            assert(self.pastv() =~= old(self).pastv());
            assert(self.futurev() =~= old(self).futurev());
        }
    }

    /// Insert `c` at absolute position `pos`, rebase every live cursor one
    /// position rightwards from there, and mark the buffer dirty.
    pub fn insert_at(&mut self, pos: usize, c: char)
        requires
            old(self).wf(),
            pos <= old(self).spec_len(),
            old(self).text().len() + 1 <= usize::MAX,
        ensures
            final(self).wf(),
            final(self).text() == old(self).text().insert(pos as int, c),
            final(self).spec_len() == old(self).spec_len() + 1,
            final(self).cursors().len() == old(self).cursors().len(),
            forall|i: int|
                0 <= i < old(self).cursors().len() ==> #[trigger] final(self).cursors()[i] == (
                    old(self).cursors()[i].0,
                    Cursor {
                        base: shifted(old(self).cursors()[i].1.base as int, pos as int, 1) as usize,
                        pos: shifted(old(self).cursors()[i].1.pos as int, pos as int, 1) as usize,
                        preferred_x: old(self).cursors()[i].1.preferred_x,
                    },
                ),
            final(self).history_eq(*old(self)),
            final(self).admin_eq(*old(self)),
            final(self).dirty(),
    {
        proof {
            assert(cursors_in(old(self).cursors(), usize::MAX - 1));
        }
        self.state.content.insert(pos, c);
        self.shift_all(pos, 1);
        self.unsaved = true;
        proof {
            assert(self.pastv() =~= old(self).pastv());
            assert(self.futurev() =~= old(self).futurev());
            assert(cursors_in(self.cursors(), self.spec_len()));
        }
    }

    /// Remove the character at absolute position `pos` (a no-op at the very
    /// end of the buffer), rebase every live cursor one position leftwards
    /// from there, and mark the buffer dirty.
    pub fn remove_at(&mut self, pos: usize)
        requires
            old(self).wf(),
            pos <= old(self).spec_len(),
        ensures
            final(self).wf(),
            pos < old(self).spec_len() ==> final(self).text() == old(self).text().remove(
                pos as int,
            ) && final(self).spec_len() == old(self).spec_len() - 1,
            pos == old(self).spec_len() ==> final(self).text() == old(self).text(),
            final(self).cursors().len() == old(self).cursors().len(),
            forall|i: int|
                0 <= i < old(self).cursors().len() ==> #[trigger] final(self).cursors()[i] == (
                    old(self).cursors()[i].0,
                    Cursor {
                        base: shifted(old(self).cursors()[i].1.base as int, pos as int, -1) as usize,
                        pos: shifted(old(self).cursors()[i].1.pos as int, pos as int, -1) as usize,
                        preferred_x: old(self).cursors()[i].1.preferred_x,
                    },
                ),
            final(self).history_eq(*old(self)),
            final(self).admin_eq(*old(self)),
            final(self).dirty(),
    {
        self.state.content.remove(pos);
        self.shift_all(pos, -1);
        self.unsaved = true;
        proof {
            assert(self.pastv() =~= old(self).pastv());
            assert(self.futurev() =~= old(self).futurev());
            assert(cursors_in(self.cursors(), self.spec_len()));
        }
    }

    /// Insert `c` at the cursor registered under `id`.
    pub fn insert(&mut self, id: CursorId, c: char)
        requires
            old(self).wf(),
            has_id(old(self).cursors(), id),
            old(self).text().len() + 1 <= usize::MAX,
        ensures
            final(self).wf(),
            final(self).text() == old(self).text().insert(
                lookup(old(self).cursors(), id)->Some_0.pos as int,
                c,
            ),
            final(self).cursors().len() == old(self).cursors().len(),
            forall|i: int|
                0 <= i < old(self).cursors().len() ==> #[trigger] final(self).cursors()[i] == (
                    old(self).cursors()[i].0,
                    Cursor {
                        base: shifted(
                            old(self).cursors()[i].1.base as int,
                            lookup(old(self).cursors(), id)->Some_0.pos as int,
                            1,
                        ) as usize,
                        pos: shifted(
                            old(self).cursors()[i].1.pos as int,
                            lookup(old(self).cursors(), id)->Some_0.pos as int,
                            1,
                        ) as usize,
                        preferred_x: old(self).cursors()[i].1.preferred_x,
                    },
                ),
            final(self).history_eq(*old(self)),
            final(self).admin_eq(*old(self)),
            final(self).dirty(),
    {
        let cur = self.cursor(id);
        self.insert_at(cur.pos, c);
    }

    /// Remove the character left of the cursor registered under `id`; a
    /// no-op at the start of the buffer.
    pub fn backspace(&mut self, id: CursorId)
        requires
            old(self).wf(),
            has_id(old(self).cursors(), id),
        ensures
            final(self).wf(),
            lookup(old(self).cursors(), id)->Some_0.pos == 0 ==> *final(self) == *old(self),
            lookup(old(self).cursors(), id)->Some_0.pos > 0 ==> {
                &&& final(self).text() == old(self).text().remove(
                    lookup(old(self).cursors(), id)->Some_0.pos - 1,
                )
                &&& final(self).cursors() == cursors_range_removed(
                    old(self).cursors(),
                    lookup(old(self).cursors(), id)->Some_0.pos - 1,
                    lookup(old(self).cursors(), id)->Some_0.pos as int,
                )
                &&& final(self).history_eq(*old(self))
                &&& final(self).admin_eq(*old(self))
                &&& final(self).dirty()
            },
    {
        let cur = self.cursor(id);
        if cur.pos > 0 {
            proof {
                crate::content::lemma_text_last(old(self).sview().lines);
            }
            self.remove_at(cur.pos - 1);
            proof {
                assert(self.cursors() =~= cursors_range_removed(
                    old(self).cursors(),
                    cur.pos - 1,
                    cur.pos as int,
                ));
            }
        }
    }

    /// Remove the character under the cursor registered under `id`; a no-op
    /// at the end of the buffer.
    pub fn delete(&mut self, id: CursorId)
        requires
            old(self).wf(),
            has_id(old(self).cursors(), id),
        ensures
            final(self).wf(),
            lookup(old(self).cursors(), id)->Some_0.pos < old(self).spec_len() ==> final(self)
                .text() == old(self).text().remove(
                lookup(old(self).cursors(), id)->Some_0.pos as int,
            ),
            lookup(old(self).cursors(), id)->Some_0.pos == old(self).spec_len() ==> final(self)
                .text() == old(self).text(),
            final(self).cursors() == cursors_range_removed(
                old(self).cursors(),
                lookup(old(self).cursors(), id)->Some_0.pos as int,
                lookup(old(self).cursors(), id)->Some_0.pos + 1,
            ),
            final(self).history_eq(*old(self)),
            final(self).admin_eq(*old(self)),
            final(self).dirty(),
    {
        let cur = self.cursor(id);
        self.remove_at(cur.pos);
        proof {
            assert(self.cursors() =~= cursors_range_removed(
                old(self).cursors(),
                cur.pos as int,
                cur.pos + 1,
            ));
        }
    }
}

impl SharedBuffer {
    /// Prepare the history for a burst of edits at clock reading `now`: the
    /// redo stack is cleared; if the newest history entry was stamped within
    /// the coalescing window its stamp is refreshed and no snapshot is
    /// pushed, otherwise the current state is pushed with a fresh stamp and
    /// the oldest entries beyond the retention cap are evicted.
    pub fn pre_edit(&mut self, now: u64)
        requires
            old(self).wf(),
        ensures
            final(self).wf(),
            final(self).futurev().len() == 0,
            final(self).sview() == old(self).sview(),
            final(self).admin_eq(*old(self)),
            final(self).dirty() == old(self).dirty(),
            old(self).pastv().len() > 0 && coalesces(old(self).pastv().last().1, now)
                ==> final(self).pastv() == old(self).pastv().update(
                old(self).pastv().len() - 1,
                (old(self).pastv().last().0, Some(now)),
            ),
            !(old(self).pastv().len() > 0 && coalesces(old(self).pastv().last().1, now))
                ==> final(self).pastv() == trimmed(
                old(self).pastv().push((old(self).sview(), Some(now))),
            ),
    {
        self.future_states.clear();
        proof {
            assert(self.futurev() =~= Seq::<StateView>::empty());
            assert(self.pastv() =~= old(self).pastv());
        }
        let np = self.past_states.len();
        let mut coalesce = false;
        if np > 0 {
            match self.past_states[np - 1].1 {
                Some(ts) => {
                    if ts <= now && now - ts <= COALESCE_WINDOW_MS {
                        coalesce = true;
                    }
                },
                None => {},
            }
        }
        if coalesce {
            match self.past_states.pop() {
                Some(e) => {
                    self.past_states.push((e.0, Some(now)));
                    proof {
                        assert(self.pastv() =~= old(self).pastv().update(
                            old(self).pastv().len() - 1,
                            (old(self).pastv().last().0, Some(now)),
                        ));
                    }
                },
                None => {
                    proof {
                        assert(false);
                    }
                },
            }
        } else {
            let snap = self.state.snapshot();
            self.past_states.push((snap, Some(now)));
            let ghost pushed = self.pastv();
            proof {
                assert(pushed =~= old(self).pastv().push((old(self).sview(), Some(now))));
            }
            if self.past_states.len() > MAX_UNDO_STATES {
                let ghost prev = self.past_states@;
                self.past_states.remove(0);
                proof {
                    assert(self.past_states@ == prev.remove(0));
                    prev.remove_ensures(0);
                    assert(self.pastv() =~= pushed.skip(1));
                    assert(self.pastv() == trimmed(pushed));
                }
            } else {
                proof {
                    assert(self.pastv() == trimmed(pushed));
                }
            }
            proof {
                assert(self.futurev() =~= Seq::<StateView>::empty());
            }
        }
    }

    /// Undo: pop the newest past state, push the current state onto the
    /// future stack, and align the live state with the popped snapshot. A
    /// no-op when there is nothing to undo.
    pub fn undo(&mut self)
        requires
            old(self).wf(),
        ensures
            final(self).wf(),
            final(self).admin_eq(*old(self)),
            final(self).dirty() == old(self).dirty(),
            old(self).pastv().len() == 0 ==> final(self).sview() == old(self).sview()
                && final(self).pastv() == old(self).pastv() && final(self).futurev() == old(self).futurev(),
            old(self).pastv().len() > 0 ==> {
                &&& final(self).pastv() == old(self).pastv().drop_last()
                &&& final(self).futurev() == old(self).futurev().push(old(self).sview())
                &&& final(self).sview() == align_sv(
                    old(self).sview(),
                    old(self).pastv().last().0,
                )
            },
    {
        match self.past_states.pop() {
            None => {},
            Some(e) => {
                let snap = self.state.snapshot();
                self.future_states.push(snap);
                proof {
                    assert(old(self).pastv().last().0 == e.0@);
                    assert(sv_wf(e.0@));
                }
                self.state.align_with(e.0);
                proof {
                    assert(self.pastv() =~= old(self).pastv().drop_last());
                    assert(self.futurev() =~= old(self).futurev().push(old(self).sview()));
                    lemma_merge_ids_bounded(
                        old(self).sview().cursors,
                        old(self).pastv().last().0.cursors,
                        self.cursor_id_counter as int,
                    );
                    lemma_clamp_ids_bounded(
                        merge_cursors(
                            old(self).sview().cursors,
                            old(self).pastv().last().0.cursors,
                        ),
                        text_of(old(self).pastv().last().0.lines).len() - 1,
                        self.cursor_id_counter as int,
                    );
                }
            },
        }
    }

    /// Redo: pop the newest future state, push the current state back onto
    /// the past stack without a coalescing stamp, and align the live state
    /// with the popped snapshot. A no-op when there is nothing to redo.
    pub fn redo(&mut self)
        requires
            old(self).wf(),
        ensures
            final(self).wf(),
            final(self).admin_eq(*old(self)),
            final(self).dirty() == old(self).dirty(),
            old(self).futurev().len() == 0 ==> final(self).sview() == old(self).sview()
                && final(self).pastv() == old(self).pastv() && final(self).futurev() == old(self).futurev(),
            old(self).futurev().len() > 0 ==> {
                &&& final(self).futurev() == old(self).futurev().drop_last()
                &&& final(self).pastv() == old(self).pastv().push((old(self).sview(), None))
                &&& final(self).sview() == align_sv(
                    old(self).sview(),
                    old(self).futurev().last(),
                )
            },
    {
        match self.future_states.pop() {
            None => {},
            Some(st) => {
                let snap = self.state.snapshot();
                self.past_states.push((snap, None));
                proof {
                    assert(old(self).futurev().last() == st@);
                    assert(sv_wf(st@));
                }
                self.state.align_with(st);
                proof {
                    assert(self.futurev() =~= old(self).futurev().drop_last());
                    assert(self.pastv() =~= old(self).pastv().push((old(self).sview(), None)));
                    lemma_merge_ids_bounded(
                        old(self).sview().cursors,
                        old(self).futurev().last().cursors,
                        self.cursor_id_counter as int,
                    );
                    lemma_clamp_ids_bounded(
                        merge_cursors(old(self).sview().cursors, old(self).futurev().last().cursors),
                        text_of(old(self).futurev().last().lines).len() - 1,
                        self.cursor_id_counter as int,
                    );
                }
            },
        }
    }
}

/// What a movement performs: a step of `n` positions or rows, or a word /
/// bracket jump.
#[derive(Copy, Clone, Debug)]
pub enum Move {
    By(usize),
    Jump,
}

/// The display column that vertical movement aims at: the remembered
/// preferred column if any, else the cursor's current column.
pub open spec fn aim_x(ls: Seq<Seq<char>>, tw: int, c: Cursor) -> int {
    match c.preferred_x {
        Some(x) => x as int,
        None => pos_loc_spec(ls, c.pos as int, tw).0,
    }
}

/// The position a directional step of `n` lands on: left and right clamp to
/// the buffer; up from the first row lands at the very start; vertical
/// movement aims at the preferred column and clamps to the row and buffer
/// ends.
pub open spec fn step_target(ls: Seq<Seq<char>>, tw: int, c: Cursor, dir: Dir, n: int) -> int {
    let len = text_of(ls).len() - 1;
    let row = row_of(ls, c.pos as int);
    match dir {
        Dir::Left => if c.pos >= n {
            c.pos - n
        } else {
            0
        },
        Dir::Right => if c.pos + n <= len {
            c.pos + n
        } else {
            len
        },
        Dir::Up => if row == 0 {
            0
        } else {
            loc_pos_spec(ls, aim_x(ls, tw, c), if row >= n { row - n } else { 0 }, tw)
        },
        Dir::Down => loc_pos_spec(
            ls,
            aim_x(ls, tw, c),
            if row + n <= ls.len() { row + n } else { ls.len() as int },
            tw,
        ),
    }
}

impl SharedBuffer {
    /// Index of the entry binding `id`, together with the facts callers
    /// need.
    fn cursor_index(&self, id: CursorId) -> (i: usize)
        requires
            self.wf(),
            has_id(self.cursors(), id),
        ensures
            i < self.cursors().len(),
            self.cursors()[i as int].0 == id,
            i as int == index_of_id(self.cursors(), id),
            lookup(self.cursors(), id) == Some(self.cursors()[i as int].1),
    {
        match self.state.find_cursor_index(id) {
            Some(i) => {
                proof {
                    let j = index_of_id(self.cursors(), id);
                    assert(self.cursors()[j].0 == id);
                    if i as int != j {
                        assert(false);
                    }
                    lemma_lookup_present(self.cursors(), i as int);
                }
                i
            },
            None => {
                proof {
                    assert(false);
                }
                0
            },
        }
    }

    /// Rebind `id` to `c`, leaving everything else alone.
    fn put_cursor(&mut self, id: CursorId, c: Cursor)
        requires
            old(self).wf(),
            has_id(old(self).cursors(), id),
            c.pos <= old(self).spec_len(),
            c.base <= old(self).spec_len(),
        ensures
            final(self).wf(),
            final(self).cursors() == upsert1(old(self).cursors(), id, c),
            has_id(final(self).cursors(), id),
            lookup(final(self).cursors(), id) == Some(c),
            final(self).sview().lines == old(self).sview().lines,
            final(self).history_eq(*old(self)),
            final(self).admin_eq(*old(self)),
            final(self).dirty() == old(self).dirty(),
            final(self).counter() == old(self).counter(),
    {
        let i = self.cursor_index(id);
        self.state.cursors[i] = (id, c);
        proof {
            assert(self.cursors() =~= upsert1(old(self).cursors(), id, c));
            lemma_lookup_upsert1(old(self).cursors(), id, c, id);
            assert(ids_bounded(self.cursors(), self.cursor_id_counter as int)) by {
                let cs0 = old(self).cursors();
                let cs2 = self.cursors();
                assert(forall|k: int|
                    0 <= k < cs2.len() ==> (#[trigger] cs2[k]).0.0
                        <= self.cursor_id_counter as int);
            }
            assert(self.pastv() =~= old(self).pastv());
            assert(self.futurev() =~= old(self).futurev());
        }
    }

    /// The display location of the cursor registered under `id`.
    pub fn cursor_loc(&self, id: CursorId) -> (r: Loc)
        requires
            self.wf(),
            has_id(self.cursors(), id),
            widths_fit(self.sview().lines, self.cfg().tab_width as int),
        ensures
            (r.x as int, r.y as int) == pos_loc_spec(
                self.sview().lines,
                lookup(self.cursors(), id)->Some_0.pos as int,
                self.cfg().tab_width as int,
            ),
    {
        let c = self.cursor(id);
        self.state.content.pos_loc(c.pos, &self.config)
    }

    /// Point the cursor registered under `id` at the position addressed by a
    /// display location, leaving its selection base alone.
    pub fn cursor_set(&mut self, id: CursorId, loc: Loc)
        requires
            old(self).wf(),
            has_id(old(self).cursors(), id),
            widths_fit(old(self).sview().lines, old(self).cfg().tab_width as int),
        ensures
            final(self).wf(),
            final(self).cursors() == upsert1(
                old(self).cursors(),
                id,
                Cursor {
                    pos: loc_pos_spec(
                        old(self).sview().lines,
                        loc.x as int,
                        loc.y as int,
                        old(self).cfg().tab_width as int,
                    ) as usize,
                    ..lookup(old(self).cursors(), id)->Some_0
                },
            ),
            final(self).sview().lines == old(self).sview().lines,
            final(self).history_eq(*old(self)),
            final(self).admin_eq(*old(self)),
            final(self).dirty() == old(self).dirty(),
    {
        let mut c = self.cursor(id);
        c.pos = self.state.content.loc_pos(loc, &self.config);
        self.put_cursor(id, c);
    }

    /// Move the cursor registered under `id` by `n` steps in `dir`, aiming
    /// vertical movement at the remembered preferred column (which vertical
    /// movement sets and horizontal movement clears). The selection base
    /// stays put. Returns whether the position changed.
    pub fn cursor_move(&mut self, id: CursorId, dir: Dir, n: usize) -> (moved: bool)
        requires
            old(self).wf(),
            has_id(old(self).cursors(), id),
            widths_fit(old(self).sview().lines, old(self).cfg().tab_width as int),
        ensures
            final(self).wf(),
            ({
                let c0 = lookup(old(self).cursors(), id)->Some_0;
                let ls = old(self).sview().lines;
                let tw = old(self).cfg().tab_width as int;
                let target = step_target(ls, tw, c0, dir, n as int);
                let px = match dir {
                    Dir::Up | Dir::Down => Some(aim_x(ls, tw, c0) as usize),
                    Dir::Left | Dir::Right => None::<usize>,
                };
                &&& final(self).cursors() == upsert1(
                    old(self).cursors(),
                    id,
                    Cursor { pos: target as usize, base: c0.base, preferred_x: px },
                )
                &&& lookup(final(self).cursors(), id) == Some(
                    Cursor { pos: target as usize, base: c0.base, preferred_x: px },
                )
                &&& has_id(final(self).cursors(), id)
                &&& moved == (target != c0.pos)
            }),
            final(self).sview().lines == old(self).sview().lines,
            final(self).history_eq(*old(self)),
            final(self).admin_eq(*old(self)),
            final(self).dirty() == old(self).dirty(),
    {
        let c0 = self.cursor(id);
        let old_pos = c0.pos;
        let mut c = c0;
        match dir {
            Dir::Left => {
                c.pos = if c.pos >= n {
                    c.pos - n
                } else {
                    0
                };
                c.preferred_x = None;
            },
            Dir::Right => {
                let len = self.len();
                c.pos = if n <= len && c.pos <= len - n {
                    c.pos + n
                } else {
                    len
                };
                c.preferred_x = None;
            },
            Dir::Up => {
                let cl = self.cursor_loc(id);
                let px = match c.preferred_x {
                    Some(x) => x,
                    None => cl.x,
                };
                proof {
                    crate::content::lemma_row_of_bracket(
                        self.sview().lines,
                        c0.pos as int,
                    );
                }
                if cl.y == 0 {
                    c.pos = 0;
                } else {
                    let y = if cl.y >= n {
                        cl.y - n
                    } else {
                        0
                    };
                    c.pos = self.state.content.loc_pos(Loc { x: px, y }, &self.config);
                }
                c.preferred_x = Some(px);
            },
            Dir::Down => {
                let cl = self.cursor_loc(id);
                let px = match c.preferred_x {
                    Some(x) => x,
                    None => cl.x,
                };
                let count = self.state.content.line_count();
                proof {
                    crate::content::lemma_row_of_bracket(
                        self.sview().lines,
                        c0.pos as int,
                    );
                }
                let y = if n <= count && cl.y <= count - n {
                    cl.y + n
                } else {
                    count
                };
                c.pos = self.state.content.loc_pos(Loc { x: px, y }, &self.config);
                c.preferred_x = Some(px);
            },
        }
        self.put_cursor(id, c);
        c.pos != old_pos
    }
}

/// The position a rightward word jump starts consuming from: past any run
/// of kindless (non-newline whitespace) characters.
pub open spec fn skip_ws_r(t: Seq<char>, p: int) -> int
    decreases t.len() - p,
{
    if p < 0 || p >= t.len() - 1 {
        p
    } else if kind_of(t[p]) is None {
        skip_ws_r(t, p + 1)
    } else {
        p
    }
}

/// Consume rightwards a maximal run of characters matching kind `k`.
pub open spec fn cons_r(t: Seq<char>, p: int, k: Option<CharKind>) -> int
    decreases t.len() - p,
{
    if p < 0 || p >= t.len() - 1 {
        p
    } else if kinds_match(kind_of(t[p]), k) {
        cons_r(t, p + 1, k)
    } else {
        p
    }
}

/// Where a rightward word jump from `p` lands: skip whitespace, classify
/// the next character, consume the maximal run of that kind.
pub open spec fn jump_right(t: Seq<char>, p: int) -> int {
    let q = skip_ws_r(t, p);
    cons_r(t, q, kind_of(t[q]))
}

/// The position a leftward word jump starts consuming from.
pub open spec fn skip_ws_l(t: Seq<char>, p: int) -> int
    decreases p,
{
    if p <= 0 {
        0
    } else if kind_of(t[p - 1]) is None {
        skip_ws_l(t, p - 1)
    } else {
        p
    }
}

/// Consume leftwards a maximal run of characters matching kind `k`.
pub open spec fn cons_l(t: Seq<char>, p: int, k: Option<CharKind>) -> int
    decreases p,
{
    if p <= 0 {
        0
    } else if kinds_match(kind_of(t[p - 1]), k) {
        cons_l(t, p - 1, k)
    } else {
        p
    }
}

/// Where a leftward word jump from `p` lands.
pub open spec fn jump_left(t: Seq<char>, p: int) -> int {
    let q = skip_ws_l(t, p);
    if q == 0 {
        0
    } else {
        cons_l(t, q, kind_of(t[q - 1]))
    }
}

/// The index of the next opening brace at or after `p`, or `-1`.
pub open spec fn find_open(t: Seq<char>, p: int) -> int
    decreases t.len() - p,
{
    if p < 0 || p >= t.len() {
        -1
    } else if t[p] == '{' {
        p
    } else {
        find_open(t, p + 1)
    }
}

/// One past the brace that closes an open run of depth `depth`, scanning
/// from `p`; `-1` when the braces never rebalance.
pub open spec fn find_close(t: Seq<char>, p: int, depth: int) -> int
    decreases t.len() - p,
{
    if p < 0 || p >= t.len() {
        -1
    } else if t[p] == '}' && depth == 1 {
        p + 1
    } else {
        find_close(t, p + 1, if t[p] == '{' {
            depth + 1
        } else if t[p] == '}' {
            depth - 1
        } else {
            depth
        })
    }
}

/// Where a bracket jump from `p` lands: just past the brace matching the
/// next opening brace, or back at `p` when there is no such pair.
pub open spec fn bracket_target(t: Seq<char>, p: int) -> int {
    let o = find_open(t, p);
    if o < 0 {
        p
    } else {
        let c = find_close(t, o + 1, 1);
        if c < 0 {
            p
        } else {
            c
        }
    }
}

/// Where a jump in `dir` lands: a word jump sideways, a bracket jump down,
/// no movement up.
pub open spec fn jump_target(t: Seq<char>, p: int, dir: Dir) -> int {
    match dir {
        Dir::Left => jump_left(t, p),
        Dir::Right => jump_right(t, p),
        Dir::Down => bracket_target(t, p),
        Dir::Up => p,
    }
}

pub proof fn lemma_skip_r_bounds(t: Seq<char>, p: int)
    requires
        0 <= p <= t.len() - 1,
    ensures
        p <= skip_ws_r(t, p) <= t.len() - 1,
    decreases t.len() - p,
{
    if p < t.len() - 1 && kind_of(t[p]) is None {
        lemma_skip_r_bounds(t, p + 1);
    }
}

pub proof fn lemma_cons_r_bounds(t: Seq<char>, p: int, k: Option<CharKind>)
    requires
        0 <= p <= t.len() - 1,
    ensures
        p <= cons_r(t, p, k) <= t.len() - 1,
    decreases t.len() - p,
{
    if p < t.len() - 1 && kinds_match(kind_of(t[p]), k) {
        lemma_cons_r_bounds(t, p + 1, k);
    }
}

pub proof fn lemma_skip_l_bounds(t: Seq<char>, p: int)
    requires
        0 <= p,
    ensures
        0 <= skip_ws_l(t, p) <= p,
    decreases p,
{
    if p > 0 && kind_of(t[p - 1]) is None {
        lemma_skip_l_bounds(t, p - 1);
    }
}

pub proof fn lemma_cons_l_bounds(t: Seq<char>, p: int, k: Option<CharKind>)
    requires
        0 <= p,
    ensures
        0 <= cons_l(t, p, k) <= p,
    decreases p,
{
    if p > 0 && kinds_match(kind_of(t[p - 1]), k) {
        lemma_cons_l_bounds(t, p - 1, k);
    }
}

pub proof fn lemma_find_open_bounds(t: Seq<char>, p: int)
    requires
        0 <= p,
    ensures
        find_open(t, p) == -1 || (p <= find_open(t, p) < t.len() && t[find_open(t, p)] == '{'),
    decreases t.len() - p,
{
    if p < t.len() && t[p] != '{' {
        lemma_find_open_bounds(t, p + 1);
    }
}

pub proof fn lemma_find_close_bounds(t: Seq<char>, p: int, depth: int)
    requires
        0 <= p,
    ensures
        find_close(t, p, depth) == -1 || p + 1 <= find_close(t, p, depth) <= t.len(),
    decreases t.len() - p,
{
    if 0 <= p < t.len() && !(t[p] == '}' && depth == 1) {
        lemma_find_close_bounds(t, p + 1, if t[p] == '{' {
            depth + 1
        } else if t[p] == '}' {
            depth - 1
        } else {
            depth
        });
    }
}

impl SharedBuffer {
    /// Jump the cursor registered under `id`: sideways over one word (any
    /// whitespace run, then a maximal run of one character kind), downwards
    /// to just past the brace matching the next opening brace (a no-op when
    /// none), upwards not at all. The selection base stays put; the
    /// preferred column is dropped.
    pub fn cursor_jump(&mut self, id: CursorId, dir: Dir)
        requires
            old(self).wf(),
            has_id(old(self).cursors(), id),
        ensures
            final(self).wf(),
            ({
                let c0 = lookup(old(self).cursors(), id)->Some_0;
                let target = jump_target(old(self).text(), c0.pos as int, dir);
                &&& final(self).cursors() == upsert1(
                    old(self).cursors(),
                    id,
                    Cursor { pos: target as usize, base: c0.base, preferred_x: None },
                )
                &&& lookup(final(self).cursors(), id) == Some(
                    Cursor { pos: target as usize, base: c0.base, preferred_x: None },
                )
                &&& has_id(final(self).cursors(), id)
            }),
            final(self).sview().lines == old(self).sview().lines,
            final(self).history_eq(*old(self)),
            final(self).admin_eq(*old(self)),
            final(self).dirty() == old(self).dirty(),
    {
        let ghost t = self.text();
        let c0 = self.cursor(id);
        let len = self.len();
        proof {
            crate::content::lemma_text_last(self.sview().lines);
        }
        let mut p = c0.pos;
        match dir {
            Dir::Right => {
                let mut done = false;
                while p < len && !done
                    invariant
                        self.wf(),
                        *self == *old(self),
                        t == self.text(),
                        len == self.spec_len(),
                        p <= len,
                        skip_ws_r(t, c0.pos as int) == skip_ws_r(t, p as int),
                        done ==> p < len && kind_of(t[p as int]) is Some,
                    decreases len - p + if done { 0int } else { 1int },
                {
                    match self.state.content.char_at(p) {
                        Some(c) => {
                            if CharKind::from_char(c).is_none() {
                                p = p + 1;
                            } else {
                                done = true;
                            }
                        },
                        None => {
                            proof {
                                assert(false);
                            }
                        },
                    }
                }
                let ghost q = skip_ws_r(t, c0.pos as int);
                assert(p == q);
                let k = match self.state.content.char_at(p) {
                    Some(c) => CharKind::from_char(c),
                    None => {
                        proof {
                            assert(false);
                        }
                        None
                    },
                };
                assert(k == kind_of(t[q]));
                let mut done2 = false;
                while p < len && !done2
                    invariant
                        self.wf(),
                        *self == *old(self),
                        t == self.text(),
                        len == self.spec_len(),
                        p <= len,
                        k == kind_of(t[q]),
                        q <= t.len() - 1,
                        cons_r(t, q, k) == cons_r(t, p as int, k),
                        done2 ==> p < len && !kinds_match(kind_of(t[p as int]), k),
                    decreases len - p + if done2 { 0int } else { 1int },
                {
                    match self.state.content.char_at(p) {
                        Some(c) => {
                            if CharKind::matches(&CharKind::from_char(c), &k) {
                                p = p + 1;
                            } else {
                                done2 = true;
                            }
                        },
                        None => {
                            proof {
                                assert(false);
                            }
                        },
                    }
                }
                assert(p == cons_r(t, q, k));
            },
            Dir::Left => {
                let mut done = false;
                while p > 0 && !done
                    invariant
                        self.wf(),
                        *self == *old(self),
                        t == self.text(),
                        len == self.spec_len(),
                        p <= len,
                        skip_ws_l(t, c0.pos as int) == skip_ws_l(t, p as int),
                        done ==> p > 0 && kind_of(t[p - 1]) is Some,
                    decreases p + if done { 0int } else { 1int },
                {
                    match self.state.content.char_at(p - 1) {
                        Some(c) => {
                            if CharKind::from_char(c).is_none() {
                                p = p - 1;
                            } else {
                                done = true;
                            }
                        },
                        None => {
                            proof {
                                assert(false);
                            }
                        },
                    }
                }
                let ghost q = skip_ws_l(t, c0.pos as int);
                assert(p == q);
                if p > 0 {
                    let k = match self.state.content.char_at(p - 1) {
                        Some(c) => CharKind::from_char(c),
                        None => {
                            proof {
                                assert(false);
                            }
                            None
                        },
                    };
                    assert(k == kind_of(t[q - 1]));
                    let mut done2 = false;
                    while p > 0 && !done2
                        invariant
                            self.wf(),
                            *self == *old(self),
                            t == self.text(),
                            len == self.spec_len(),
                            p <= len,
                            q > 0,
                            q <= t.len() - 1,
                            k == kind_of(t[q - 1]),
                            cons_l(t, q, k) == cons_l(t, p as int, k),
                            done2 ==> p > 0 && !kinds_match(kind_of(t[p - 1]), k),
                        decreases p + if done2 { 0int } else { 1int },
                    {
                        match self.state.content.char_at(p - 1) {
                            Some(c) => {
                                if CharKind::matches(&CharKind::from_char(c), &k) {
                                    p = p - 1;
                                } else {
                                    done2 = true;
                                }
                            },
                            None => {
                                proof {
                                    assert(false);
                                }
                            },
                        }
                    }
                    assert(p == cons_l(t, q, k));
                }
            },
            Dir::Down => {
                let mut found_open: Option<usize> = None;
                let mut i = c0.pos;
                let mut missed = false;
                while i <= len && !missed && found_open.is_none()
                    invariant
                        self.wf(),
                        *self == *old(self),
                        t == self.text(),
                        len == self.spec_len(),
                        c0.pos <= i <= len + 1,
                        found_open is None ==> find_open(t, c0.pos as int) == find_open(
                            t,
                            i as int,
                        ),
                        found_open matches Some(o) ==> c0.pos <= o <= len && t[o as int] == '{'
                            && find_open(t, c0.pos as int) == o,
                        missed ==> i == len + 1,
                    decreases len + 1 - i + if found_open is Some { 0int } else { 1int },
                {
                    match self.state.content.char_at(i) {
                        Some(c) => {
                            if c == '{' {
                                found_open = Some(i);
                            } else {
                                i = i + 1;
                                if i > len {
                                    missed = true;
                                }
                            }
                        },
                        None => {
                            proof {
                                assert(false);
                            }
                        },
                    }
                }
                match found_open {
                    None => {
                        proof {
                            assert(find_open(t, c0.pos as int) == -1);
                        }
                        p = c0.pos;
                    },
                    Some(o) => {
                        let mut depth: usize = 1;
                        let mut j = o + 1;
                        let mut landed: Option<usize> = None;
                        while j <= len && landed.is_none()
                            invariant
                                self.wf(),
                                *self == *old(self),
                                t == self.text(),
                                len == self.spec_len(),
                                o < j <= len + 1,
                                o <= len,
                                landed is None ==> depth >= 1 && depth <= j && find_close(
                                    t,
                                    o + 1,
                                    1,
                                ) == find_close(t, j as int, depth as int),
                                landed matches Some(q) ==> find_close(t, o + 1, 1) == q && o < q
                                    <= len,
                            decreases len + 1 - j + if landed is Some { 0int } else { 1int },
                        {
                            match self.state.content.char_at(j) {
                                Some(c) => {
                                    if c == '}' && depth == 1 {
                                        proof {
                                            crate::content::lemma_text_last(self.sview().lines);
                                            assert(t[t.len() - 1] == '\n');
                                            assert(j < len);
                                        }
                                        landed = Some(j + 1);
                                    } else {
                                        if c == '{' {
                                            depth = depth + 1;
                                        } else if c == '}' {
                                            depth = depth - 1;
                                        }
                                        j = j + 1;
                                    }
                                },
                                None => {
                                    proof {
                                        assert(false);
                                    }
                                },
                            }
                        }
                        match landed {
                            Some(q) => {
                                p = q;
                            },
                            None => {
                                proof {
                                    assert(find_close(t, o + 1, 1) == -1);
                                }
                                p = c0.pos;
                            },
                        }
                    },
                }
            },
            Dir::Up => {
                p = c0.pos;
            },
        }
        proof {
            match dir {
                Dir::Right => {
                    lemma_skip_r_bounds(t, c0.pos as int);
                    lemma_cons_r_bounds(t, skip_ws_r(t, c0.pos as int), kind_of(
                        t[skip_ws_r(t, c0.pos as int)],
                    ));
                },
                Dir::Left => {
                    lemma_skip_l_bounds(t, c0.pos as int);
                    if skip_ws_l(t, c0.pos as int) > 0 {
                        lemma_cons_l_bounds(t, skip_ws_l(t, c0.pos as int), kind_of(
                            t[skip_ws_l(t, c0.pos as int) - 1],
                        ));
                    }
                },
                _ => {},
            }
        }
        self.put_cursor(id, Cursor { pos: p, base: c0.base, preferred_x: None });
    }
}

/// Where a position lands after the range `[from, to)` is removed: before
/// the range it stays, past the range it shifts left by the range's length,
/// inside it collapses to the range's start.
pub open spec fn range_removed(v: int, from: int, to: int) -> int {
    if v <= from {
        v
    } else if v >= to {
        v - (to - from)
    } else {
        from
    }
}

/// Where a position lands after `k` characters are inserted at `at`: at or
/// past the insertion it shifts right by `k`.
pub open spec fn range_inserted(v: int, at: int, k: int) -> int {
    if v >= at {
        v + k
    } else {
        v
    }
}

/// Every cursor rebased by the removal of `[from, to)`.
pub open spec fn cursors_range_removed(
    cs: Seq<(CursorId, Cursor)>,
    from: int,
    to: int,
) -> Seq<(CursorId, Cursor)> {
    cs.map_values(
        |e: (CursorId, Cursor)|
            (
                e.0,
                Cursor {
                    base: range_removed(e.1.base as int, from, to) as usize,
                    pos: range_removed(e.1.pos as int, from, to) as usize,
                    preferred_x: e.1.preferred_x,
                },
            ),
    )
}

/// Every cursor rebased by an insertion of `k` characters at `at`.
pub open spec fn cursors_range_inserted(
    cs: Seq<(CursorId, Cursor)>,
    at: int,
    k: int,
) -> Seq<(CursorId, Cursor)> {
    cs.map_values(
        |e: (CursorId, Cursor)|
            (
                e.0,
                Cursor {
                    base: range_inserted(e.1.base as int, at, k) as usize,
                    pos: range_inserted(e.1.pos as int, at, k) as usize,
                    preferred_x: e.1.preferred_x,
                },
            ),
    )
}

impl SharedBuffer {
    /// The characters inside the selection of the cursor registered under
    /// `id`, in buffer order.
    pub fn selection(&self, id: CursorId) -> (r: Vec<char>)
        requires
            self.wf(),
            has_id(self.cursors(), id),
        ensures
            ({
                let c0 = lookup(self.cursors(), id)->Some_0;
                r@ == self.text().subrange(c0.sel_min(), c0.sel_max())
            }),
    {
        let c0 = self.cursor(id);
        let from = if c0.base <= c0.pos { c0.base } else { c0.pos };
        let to = if c0.base <= c0.pos { c0.pos } else { c0.base };
        let mut out: Vec<char> = Vec::new();
        let ghost t = self.text();
        for i in from..to
            invariant
                self.wf(),
                t == self.text(),
                from <= i <= to,
                to <= self.spec_len(),
                out@ == t.subrange(from as int, i as int),
        {
            match self.state.content.char_at(i) {
                Some(c) => {
                    out.push(c);
                    proof {
                        assert(t.subrange(from as int, i as int).push(t[i as int]) =~= t.subrange(
                            from as int,
                            i + 1,
                        ));
                    }
                },
                None => {
                    proof {
                        assert(false);
                    }
                },
            }
        }
        out
    }

    /// The selection of the cursor registered under `id` as a string.
    pub fn get_selection_string(&self, id: CursorId) -> (r: String)
        requires
            self.wf(),
            has_id(self.cursors(), id),
        ensures
            ({
                let c0 = lookup(self.cursors(), id)->Some_0;
                r@ == self.text().subrange(c0.sel_min(), c0.sel_max())
            }),
    {
        let v = self.selection(id);
        crate::content::chars_to_string(&v)
    }

    /// Delete the selected range of the cursor registered under `id`: the
    /// text between the selection's ends goes away and every cursor is
    /// rebased; with no selection nothing changes.
    pub fn remove_selection(&mut self, id: CursorId)
        requires
            old(self).wf(),
            has_id(old(self).cursors(), id),
        ensures
            final(self).wf(),
            ({
                let c0 = lookup(old(self).cursors(), id)->Some_0;
                let m = c0.sel_min();
                let mm = c0.sel_max();
                &&& final(self).text() == old(self).text().take(m) + old(self).text().skip(mm)
                &&& final(self).cursors() == cursors_range_removed(old(self).cursors(), m, mm)
                &&& (m < mm ==> final(self).dirty())
                &&& (m == mm ==> final(self).dirty() == old(self).dirty())
            }),
            final(self).history_eq(*old(self)),
            final(self).admin_eq(*old(self)),
    {
        let c0 = self.cursor(id);
        let from = if c0.base <= c0.pos { c0.base } else { c0.pos };
        let to = if c0.base <= c0.pos { c0.pos } else { c0.base };
        let ghost t = self.text();
        let ghost cs0 = self.cursors();
        let mut k = to;
        while k > from
            invariant
                self.wf(),
                from <= k <= to,
                to <= t.len() - 1,
                self.text() == t.take(k as int) + t.skip(to as int),
                self.cursors() == cursors_range_removed(cs0, k as int, to as int),
                self.history_eq(*old(self)),
                self.admin_eq(*old(self)),
                k < to ==> self.dirty(),
                k == to ==> self.dirty() == old(self).dirty(),
            decreases k,
        {
            let ghost tcur = self.text();
            let ghost cscur = self.cursors();
            proof {
                assert(tcur.len() == t.len() - (to - k));
                assert(k - 1 < tcur.len() - 1);
            }
            self.remove_at(k - 1);
            k = k - 1;
            proof {
                assert(self.text() =~= t.take(k as int) + t.skip(to as int));
                assert(self.cursors() =~= cursors_range_removed(cs0, k as int, to as int));
            }
        }
        proof {
            if from == to {
                assert(self.text() =~= t);
                assert(self.cursors() =~= cs0) by {
                    assert(self.cursors() == cursors_range_removed(cs0, from as int, to as int));
                    assert(forall|i: int|
                        0 <= i < cs0.len() ==> cursors_range_removed(cs0, from as int, to as int)[i]
                            == #[trigger] cs0[i]);
                }
            }
        }
    }

    /// Insert every character of `s` at the cursor registered under `id`,
    /// in order; every cursor at or past the insertion point shifts right by
    /// the string's length.
    pub fn insert_str(&mut self, id: CursorId, s: &str)
        requires
            old(self).wf(),
            has_id(old(self).cursors(), id),
            old(self).text().len() + s@.len() <= usize::MAX,
        ensures
            final(self).wf(),
            ({
                let p = lookup(old(self).cursors(), id)->Some_0.pos as int;
                &&& final(self).text() == old(self).text().take(p) + s@ + old(self).text().skip(p)
                &&& final(self).cursors() == cursors_range_inserted(
                    old(self).cursors(),
                    p,
                    s@.len() as int,
                )
                &&& (s@.len() > 0 ==> final(self).dirty())
                &&& (s@.len() == 0 ==> final(self).dirty() == old(self).dirty())
            }),
            final(self).history_eq(*old(self)),
            final(self).admin_eq(*old(self)),
    {
        let v = crate::content::str_to_chars(s);
        self.insert_chars(id, &v);
    }

    /// Insert every character of `v` at the cursor registered under `id`.
    pub fn insert_chars(&mut self, id: CursorId, v: &Vec<char>)
        requires
            old(self).wf(),
            has_id(old(self).cursors(), id),
            old(self).text().len() + v@.len() <= usize::MAX,
        ensures
            final(self).wf(),
            ({
                let p = lookup(old(self).cursors(), id)->Some_0.pos as int;
                &&& final(self).text() == old(self).text().take(p) + v@ + old(self).text().skip(p)
                &&& final(self).cursors() == cursors_range_inserted(
                    old(self).cursors(),
                    p,
                    v@.len() as int,
                )
                &&& (v@.len() > 0 ==> final(self).dirty())
                &&& (v@.len() == 0 ==> final(self).dirty() == old(self).dirty())
                &&& has_id(final(self).cursors(), id)
                &&& lookup(final(self).cursors(), id) is Some
                &&& lookup(final(self).cursors(), id)->Some_0.pos == p + v@.len()
            }),
            final(self).history_eq(*old(self)),
            final(self).admin_eq(*old(self)),
    {
        let c0 = self.cursor(id);
        let ghost p = c0.pos as int;
        let ghost t = self.text();
        let ghost cs0 = self.cursors();
        let n = v.len();
        proof {
            assert(t.take(p) + v@.take(0) + t.skip(p) =~= t);
            assert(cursors_range_inserted(cs0, p, 0) =~= cs0);
            lemma_has_of_lookup(cs0, id);
        }
        for i in 0..n
            invariant
                self.wf(),
                n == v@.len(),
                0 <= p <= t.len() - 1,
                t.len() + n <= usize::MAX,
                cursors_in(cs0, t.len() - 1),
                self.text() == t.take(p) + v@.take(i as int) + t.skip(p),
                self.cursors() == cursors_range_inserted(cs0, p, i as int),
                has_id(self.cursors(), id),
                lookup(self.cursors(), id)->Some_0.pos == p + i,
                self.history_eq(*old(self)),
                self.admin_eq(*old(self)),
                i > 0 ==> self.dirty(),
                i == 0 ==> self.dirty() == old(self).dirty(),
        {
            proof {
                let k = choose|k: int| 0 <= k < cs0.len() && (#[trigger] cs0[k]).0 == id;
                assert(self.cursors()[k].0 == id);
            }
            let ghost prev = self.cursors();
            self.insert(id, v[i]);
            proof {
                assert(self.text() =~= t.take(p) + v@.take(i + 1) + t.skip(p));
                assert forall|j: int| 0 <= j < cs0.len() implies self.cursors()[j]
                    == cursors_range_inserted(cs0, p, i + 1)[j] by {
                    assert(prev[j] == cursors_range_inserted(cs0, p, i as int)[j]);
                    assert(self.cursors()[j] == (
                        prev[j].0,
                        Cursor {
                            base: shifted(prev[j].1.base as int, p + i, 1) as usize,
                            pos: shifted(prev[j].1.pos as int, p + i, 1) as usize,
                            preferred_x: prev[j].1.preferred_x,
                        },
                    ));
                    assert(shifted(range_inserted(cs0[j].1.base as int, p, i as int), p + i, 1)
                        == range_inserted(cs0[j].1.base as int, p, i + 1));
                    assert(shifted(range_inserted(cs0[j].1.pos as int, p, i as int), p + i, 1)
                        == range_inserted(cs0[j].1.pos as int, p, i + 1));
                    assert(prev[j].1.base as int == range_inserted(cs0[j].1.base as int, p, i as int));
                    assert(prev[j].1.pos as int == range_inserted(cs0[j].1.pos as int, p, i as int));
                }
                assert(self.cursors() =~= cursors_range_inserted(cs0, p, i + 1));
                lemma_has_of_lookup(self.cursors(), id);
                let k = choose|k: int| 0 <= k < cs0.len() && (#[trigger] cs0[k]).0 == id;
                assert(self.cursors()[k].0 == id);
                lemma_lookup_present(self.cursors(), k);
                lemma_lookup_present(cursors_range_inserted(cs0, p, i as int), k);
            }
        }
        proof {
            assert(v@.take(n as int) =~= v@);
            lemma_has_of_lookup(self.cursors(), id);
        }
    }
}

/// Upserting the same identity twice keeps only the second binding.
pub proof fn lemma_upsert_twice(cs: Seq<(CursorId, Cursor)>, id: CursorId, a: Cursor, b: Cursor)
    requires
        ids_unique(cs),
    ensures
        upsert1(upsert1(cs, id, a), id, b) == upsert1(cs, id, b),
{
    lemma_lookup_upsert1(cs, id, a, id);
    let cs1 = upsert1(cs, id, a);
    if has_id(cs, id) {
        let i = index_of_id(cs, id);
        assert(cs[i].0 == id);
        assert(cs1 == cs.update(i, (id, a)));
        assert(has_id(cs1, id)) by {
            assert(cs1[i].0 == id);
        }
        let j = index_of_id(cs1, id);
        assert(cs1[j].0 == id);
        if j != i {
            assert(cs[j].0 == id);
            assert(false);
        }
        assert(upsert1(cs1, id, b) =~= upsert1(cs, id, b));
    } else {
        assert(cs1 == cs.push((id, a)));
        assert(has_id(cs1, id)) by {
            assert(cs1[cs.len() as int].0 == id);
        }
        let j = index_of_id(cs1, id);
        assert(cs1[j].0 == id);
        if j != cs.len() {
            assert(cs[j].0 == id);
            assert(false);
        }
        assert(upsert1(cs1, id, b) =~= upsert1(cs, id, b));
    }
}

/// The cursor a movement command leaves behind: with `reach` the business
/// end steps or jumps while the base holds; without it, a live selection
/// only collapses to its edge, and otherwise the cursor moves and the base
/// follows.
pub open spec fn movement_result(
    ls: Seq<Seq<char>>,
    tw: int,
    c0: Cursor,
    dir: Dir,
    reach: bool,
    mv: Move,
) -> Cursor {
    let stepped = match mv {
        Move::By(n) => step_target(ls, tw, c0, dir, n as int),
        Move::Jump => jump_target(text_of(ls), c0.pos as int, dir),
    };
    let px = match mv {
        Move::By(n) => match dir {
            Dir::Up | Dir::Down => Some(aim_x(ls, tw, c0) as usize),
            Dir::Left | Dir::Right => None::<usize>,
        },
        Move::Jump => None::<usize>,
    };
    if reach {
        Cursor { pos: stepped as usize, base: c0.base, preferred_x: px }
    } else if c0.reaching() {
        let edge = if dir.forward() {
            c0.sel_max()
        } else {
            c0.sel_min()
        };
        Cursor { pos: edge as usize, base: edge as usize, preferred_x: c0.preferred_x }
    } else {
        Cursor { pos: stepped as usize, base: stepped as usize, preferred_x: px }
    }
}

impl SharedBuffer {
    /// First directional movement with no modifier collapses a selection to
    /// its edge instead of moving; once collapsed (or with none), the
    /// movement itself runs. Without `reach`, the selection base follows
    /// the cursor afterwards.
    pub fn do_cursor_movement(&mut self, id: CursorId, dir: Dir, reach: bool, mv: Move)
        requires
            old(self).wf(),
            has_id(old(self).cursors(), id),
            widths_fit(old(self).sview().lines, old(self).cfg().tab_width as int),
        ensures
            final(self).wf(),
            final(self).cursors() == upsert1(
                old(self).cursors(),
                id,
                movement_result(
                    old(self).sview().lines,
                    old(self).cfg().tab_width as int,
                    lookup(old(self).cursors(), id)->Some_0,
                    dir,
                    reach,
                    mv,
                ),
            ),
            final(self).sview().lines == old(self).sview().lines,
            final(self).history_eq(*old(self)),
            final(self).admin_eq(*old(self)),
            final(self).dirty() == old(self).dirty(),
    {
        let ghost cs0 = self.cursors();
        if !reach {
            let mut c = self.cursor(id);
            let collapsed = c.unreach(dir);
            if collapsed {
                c.base = c.pos;
                self.put_cursor(id, c);
            } else {
                match mv {
                    Move::By(n) => {
                        self.cursor_move(id, dir, n);
                    },
                    Move::Jump => {
                        self.cursor_jump(id, dir);
                    },
                }
                let ghost mid = self.cursors();
                let mut c2 = self.cursor(id);
                let ghost c2g = c2;
                c2.base = c2.pos;
                self.put_cursor(id, c2);
                proof {
                    assert(mid == upsert1(cs0, id, c2g));
                    lemma_upsert_twice(cs0, id, c2g, c2);
                }
            }
        } else {
            match mv {
                Move::By(n) => {
                    self.cursor_move(id, dir, n);
                },
                Move::Jump => {
                    self.cursor_jump(id, dir);
                },
            }
        }
    }

    /// Select the whole buffer: base at the start, cursor at the end.
    pub fn select_all(&mut self, id: CursorId)
        requires
            old(self).wf(),
            has_id(old(self).cursors(), id),
        ensures
            final(self).wf(),
            final(self).cursors() == upsert1(
                old(self).cursors(),
                id,
                Cursor {
                    base: 0,
                    pos: old(self).spec_len() as usize,
                    preferred_x: lookup(old(self).cursors(), id)->Some_0.preferred_x,
                },
            ),
            final(self).sview().lines == old(self).sview().lines,
            final(self).history_eq(*old(self)),
            final(self).admin_eq(*old(self)),
            final(self).dirty() == old(self).dirty(),
    {
        let mut c = self.cursor(id);
        c.base = 0;
        c.pos = self.len();
        self.put_cursor(id, c);
    }

    /// Duplicate the row under the cursor registered under `id`, inserting
    /// the copy immediately below it. Cursors are not rebased (no primitive
    /// edit runs); the buffer is marked dirty. A buffer so large that the
    /// copy cannot be addressed is left unchanged.
    pub fn duplicate_line(&mut self, id: CursorId)
        requires
            old(self).wf(),
            has_id(old(self).cursors(), id),
        ensures
            final(self).wf(),
            ({
                let row = row_of(
                    old(self).sview().lines,
                    lookup(old(self).cursors(), id)->Some_0.pos as int,
                );
                let l = old(self).sview().lines[row];
                if old(self).text().len() + l.len() + 1 <= usize::MAX {
                    final(self).sview().lines == old(self).sview().lines.insert(row + 1, l)
                        && final(self).dirty()
                } else {
                    final(self).sview() == old(self).sview() && final(self).dirty() == old(self).dirty()
                }
            }),
            final(self).cursors() == old(self).cursors(),
            final(self).history_eq(*old(self)),
            final(self).admin_eq(*old(self)),
    {
        let c0 = self.cursor(id);
        let rl = self.state.content.pos_to_rank_line(c0.pos);
        let row = rl.y;
        let chars = match self.state.content.line_chars(row) {
            Some(v) => v,
            None => {
                proof {
                    assert(false);
                }
                Vec::new()
            },
        };
        let total = self.len();
        proof {
            crate::content::lemma_text_last(self.sview().lines);
        }
        if chars.len() <= usize::MAX - 2 && total <= usize::MAX - 2 - chars.len() {
            let nrows = self.state.content.line_count();
            assert(row < nrows);
            self.state.content.insert_line_vec(row + 1, chars);
            self.unsaved = true;
            proof {
                crate::content::lemma_text_insert_line(
                    old(self).sview().lines,
                    row as int + 1,
                    old(self).sview().lines[row as int],
                );
                assert(self.pastv() =~= old(self).pastv());
                assert(self.futurev() =~= old(self).futurev());
                assert(cursors_in(self.cursors(), self.spec_len())) by {
                    assert(forall|i: int|
                        0 <= i < self.cursors().len() ==> (#[trigger] self.cursors()[i]).1.pos
                            <= self.spec_len() && self.cursors()[i].1.base <= self.spec_len());
                }
            }
        }
    }
}

/// The characters of a path after its last separator.
pub open spec fn file_name_of(p: Seq<char>) -> Seq<char>
    decreases p.len(),
{
    if p.len() == 0 {
        p
    } else if p.last() == '/' {
        Seq::empty()
    } else {
        file_name_of(p.drop_last()).push(p.last())
    }
}

impl SharedBuffer {
    /// Remove the text range `[from, to)`, rebasing every cursor.
    fn remove_range(&mut self, from: usize, to: usize)
        requires
            old(self).wf(),
            from <= to <= old(self).spec_len(),
        ensures
            final(self).wf(),
            final(self).text() == old(self).text().take(from as int) + old(self).text().skip(
                to as int,
            ),
            final(self).cursors() == cursors_range_removed(
                old(self).cursors(),
                from as int,
                to as int,
            ),
            from < to ==> final(self).dirty(),
            from == to ==> final(self).dirty() == old(self).dirty(),
            final(self).history_eq(*old(self)),
            final(self).admin_eq(*old(self)),
    {
        let ghost t = self.text();
        let ghost cs0 = self.cursors();
        let mut k = to;
        while k > from
            invariant
                self.wf(),
                from <= k <= to,
                to <= t.len() - 1,
                self.text() == t.take(k as int) + t.skip(to as int),
                self.cursors() == cursors_range_removed(cs0, k as int, to as int),
                self.history_eq(*old(self)),
                self.admin_eq(*old(self)),
                k < to ==> self.dirty(),
                k == to ==> self.dirty() == old(self).dirty(),
            decreases k,
        {
            proof {
                assert(self.text().len() == t.len() - (to - k));
                assert(k - 1 < self.text().len() - 1);
            }
            self.remove_at(k - 1);
            k = k - 1;
            proof {
                assert(self.text() =~= t.take(k as int) + t.skip(to as int));
                assert(self.cursors() =~= cursors_range_removed(cs0, k as int, to as int));
            }
        }
        proof {
            if from == to {
                assert(self.text() =~= t);
                assert(self.cursors() =~= cursors_range_removed(cs0, from as int, to as int));
            }
        }
    }

    /// Where a leftward word scan from the cursor would land, without
    /// moving anything.
    fn word_left_target(&self, p0: usize) -> (r: usize)
        requires
            self.wf(),
            p0 <= self.spec_len(),
        ensures
            r == jump_left(self.text(), p0 as int),
            r <= p0,
    {
        let ghost t = self.text();
        let mut p = p0;
        let mut done = false;
        while p > 0 && !done
            invariant
                self.wf(),
                t == self.text(),
                p <= p0 <= self.spec_len(),
                skip_ws_l(t, p0 as int) == skip_ws_l(t, p as int),
                done ==> p > 0 && kind_of(t[p - 1]) is Some,
            decreases p + if done { 0int } else { 1int },
        {
            match self.state.content.char_at(p - 1) {
                Some(c) => {
                    if CharKind::from_char(c).is_none() {
                        p = p - 1;
                    } else {
                        done = true;
                    }
                },
                None => {
                    proof {
                        assert(false);
                    }
                },
            }
        }
        let ghost q = skip_ws_l(t, p0 as int);
        assert(p == q);
        if p > 0 {
            let k = match self.state.content.char_at(p - 1) {
                Some(c) => CharKind::from_char(c),
                None => {
                    proof {
                        assert(false);
                    }
                    None
                },
            };
            assert(k == kind_of(t[q - 1]));
            let mut done2 = false;
            while p > 0 && !done2
                invariant
                    self.wf(),
                    t == self.text(),
                    p <= p0 <= self.spec_len(),
                    q > 0,
                    q <= t.len() - 1,
                    k == kind_of(t[q - 1]),
                    cons_l(t, q, k) == cons_l(t, p as int, k),
                    done2 ==> p > 0 && !kinds_match(kind_of(t[p - 1]), k),
                decreases p + if done2 { 0int } else { 1int },
            {
                match self.state.content.char_at(p - 1) {
                    Some(c) => {
                        if CharKind::matches(&CharKind::from_char(c), &k) {
                            p = p - 1;
                        } else {
                            done2 = true;
                        }
                    },
                    None => {
                        proof {
                            assert(false);
                        }
                    },
                }
            }
            assert(p == cons_l(t, q, k));
            proof {
                lemma_cons_l_bounds(t, q, k);
                lemma_skip_l_bounds(t, p0 as int);
            }
        }
        p
    }

    /// Delete leftwards from the cursor registered under `id` over one
    /// word: any whitespace run, then a maximal run of one character kind —
    /// exactly the range a leftward word jump would cross.
    pub fn backspace_word(&mut self, id: CursorId)
        requires
            old(self).wf(),
            has_id(old(self).cursors(), id),
        ensures
            final(self).wf(),
            ({
                let p = lookup(old(self).cursors(), id)->Some_0.pos as int;
                let j = jump_left(old(self).text(), p);
                &&& final(self).text() == old(self).text().take(j) + old(self).text().skip(p)
                &&& final(self).cursors() == cursors_range_removed(old(self).cursors(), j, p)
                &&& (j < p ==> final(self).dirty())
                &&& (j == p ==> final(self).dirty() == old(self).dirty())
            }),
            final(self).history_eq(*old(self)),
            final(self).admin_eq(*old(self)),
    {
        let c0 = self.cursor(id);
        let j = self.word_left_target(c0.pos);
        self.remove_range(j, c0.pos);
    }

    /// The buffer's display title: the file name of its path, or
    /// "untitled" for a scratch buffer.
    pub fn title(&self) -> (r: String)
        ensures
            ({
                let nm = match self.spec_path() {
                    Some(p) => file_name_of(p@),
                    None => Seq::<char>::empty(),
                };
                r@ == if nm.len() > 0 {
                    nm
                } else {
                    "untitled"@
                }
            }),
    {
        let nm: Vec<char> = match &self.path {
            Some(p) => {
                let n = p.as_str().unicode_len();
                let ghost pv = p@;
                let mut out: Vec<char> = Vec::new();
                let mut i = n;
                proof {
                    assert(file_name_of(pv.take(n as int)) == file_name_of(pv)) by {
                        assert(pv.take(n as int) =~= pv);
                    }
                }
                let mut stop = false;
                while i > 0 && !stop
                    invariant
                        n == pv.len(),
                        pv == p@,
                        i <= n,
                        file_name_of(pv) == if stop {
                            pv.subrange(i as int, n as int)
                        } else {
                            file_name_of(pv.take(i as int)) + pv.subrange(i as int, n as int)
                        },
                    decreases i + if stop { 0int } else { 1int },
                {
                    let c = p.as_str().get_char(i - 1);
                    if c == '/' {
                        stop = true;
                        proof {
                            assert(pv.take(i as int).last() == '/');
                            assert(file_name_of(pv.take(i as int)) =~= Seq::<char>::empty());
                            assert(Seq::<char>::empty() + pv.subrange(i as int, n as int)
                                =~= pv.subrange(i as int, n as int));
                        }
                    } else {
                        i = i - 1;
                        proof {
                            assert(pv.take(i + 1).last() == pv[i as int]);
                            assert(pv.take(i + 1).drop_last() =~= pv.take(i as int));
                            assert(file_name_of(pv.take(i + 1)) == file_name_of(
                                pv.take(i as int),
                            ).push(pv[i as int]));
                            assert(file_name_of(pv.take(i as int)).push(pv[i as int])
                                + pv.subrange(i + 1, n as int) =~= file_name_of(
                                pv.take(i as int),
                            ) + pv.subrange(i as int, n as int));
                        }
                    }
                }
                proof {
                    if !stop {
                        assert(i == 0);
                        assert(pv.take(0) =~= Seq::<char>::empty());
                        assert(file_name_of(Seq::<char>::empty()) + pv.subrange(0, n as int)
                            =~= pv.subrange(0, n as int));
                    }
                }
                let mut out2: Vec<char> = Vec::new();
                let mut k = i;
                while k < n
                    invariant
                        n == pv.len(),
                        pv == p@,
                        i <= k <= n,
                        out2@ == pv.subrange(i as int, k as int),
                    decreases n - k,
                {
                    out2.push(p.as_str().get_char(k));
                    k = k + 1;
                    proof {
                        assert(pv.subrange(i as int, k - 1).push(pv[k - 1]) =~= pv.subrange(
                            i as int,
                            k as int,
                        ));
                    }
                }
                proof {
                    assert(file_name_of(pv) == pv.subrange(i as int, n as int));
                }
                out2
            },
            None => Vec::new(),
        };
        if nm.len() > 0 {
            crate::content::chars_to_string(&nm)
        } else {
            let r = String::from_str("untitled");
            r
        }
    }
}

/// `n` spaces.
pub open spec fn spaces(n: int) -> Seq<char> {
    Seq::new(if n >= 0 {
        n as nat
    } else {
        0
    }, |i: int| ' ')
}

/// How many leading whitespace characters a line carries.
pub open spec fn lead_len(l: Seq<char>) -> int
    decreases l.len(),
{
    if l.len() == 0 || !crate::cursor::unicode_whitespace(l[0]) {
        0
    } else {
        1 + lead_len(l.drop_first())
    }
}

/// A line's leading whitespace.
pub open spec fn leading_ws(l: Seq<char>) -> Seq<char> {
    l.take(lead_len(l))
}

pub proof fn lemma_lead_len_bounds(l: Seq<char>)
    ensures
        0 <= lead_len(l) <= l.len(),
        forall|j: int| 0 <= j < lead_len(l) ==> crate::cursor::unicode_whitespace(#[trigger] l[j]),
        lead_len(l) < l.len() ==> !crate::cursor::unicode_whitespace(l[lead_len(l)]),
    decreases l.len(),
{
    if l.len() > 0 && crate::cursor::unicode_whitespace(l[0]) {
        lemma_lead_len_bounds(l.drop_first());
        assert(forall|j: int|
            0 <= j < l.drop_first().len() ==> #[trigger] l.drop_first()[j] == l[j + 1]);
        assert forall|j: int| 0 <= j < lead_len(l) implies crate::cursor::unicode_whitespace(
            #[trigger] l[j],
        ) by {
            if j > 0 {
                assert(l.drop_first()[j - 1] == l[j]);
                assert(crate::cursor::unicode_whitespace(l.drop_first()[j - 1]));
            }
        }
    }
}

/// A row with `s` spliced in at offset `k`.
pub open spec fn ins_row(l: Seq<char>, s: Seq<char>, at_first_nonws: bool) -> Seq<char> {
    let k = if at_first_nonws {
        lead_len(l)
    } else {
        0
    };
    l.take(k) + s + l.skip(k)
}

impl SharedBuffer {
    /// Where row `row` starts in the text.
    fn line_start_exec(&self, row: usize) -> (r: usize)
        requires
            self.wf(),
            row < self.sview().lines.len(),
        ensures
            r == line_start(self.sview().lines, row as int),
            r + self.sview().lines[row as int].len() <= self.spec_len(),
    {
        let ghost ls = self.sview().lines;
        let mut base: usize = 0;
        proof {
            assert(ls.take(0) =~= Seq::<Seq<char>>::empty());
        }
        for i in 0..row
            invariant
                self.wf(),
                ls == self.sview().lines,
                row < ls.len(),
                base == line_start(ls, i as int),
            decreases row - i,
        {
            proof {
                crate::content::lemma_line_start_step(ls, i as int);
                crate::content::lemma_line_start_bounds(ls, i as int + 1);
            }
            let chars = match self.state.content.line_chars(i) {
                Some(v) => v,
                None => {
                    proof {
                        assert(false);
                    }
                    Vec::new()
                },
            };
            base = base + chars.len() + 1;
        }
        proof {
            crate::content::lemma_line_start_bounds(ls, row as int);
        }
        base
    }

    /// Splice `s` into every row of `r1..=r2`, at the row's first
    /// non-whitespace column or at its very start; every cursor at or past
    /// each splice point is rebased rightwards.
    fn insert_in_rows(&mut self, r1: usize, r2: usize, at_first_nonws: bool, s: &Vec<char>)
        requires
            old(self).wf(),
            r1 <= r2 < old(self).sview().lines.len(),
            crate::content::line_ok(s@),
            1 <= s@.len() <= isize::MAX,
            old(self).text().len() + (r2 - r1 + 1) * s@.len() <= usize::MAX,
        ensures
            final(self).wf(),
            final(self).sview().lines == Seq::new(
                old(self).sview().lines.len(),
                |r: int|
                    if r1 <= r <= r2 {
                        ins_row(old(self).sview().lines[r], s@, at_first_nonws)
                    } else {
                        old(self).sview().lines[r]
                    },
            ),
            final(self).cursors().len() == old(self).cursors().len(),
            forall|i: int|
                0 <= i < old(self).cursors().len() ==> (#[trigger] final(self).cursors()[i]).0
                    == old(self).cursors()[i].0 && final(self).cursors()[i].1.preferred_x == old(self).cursors()[i].1.preferred_x,
            final(self).dirty(),
            final(self).history_eq(*old(self)),
            final(self).admin_eq(*old(self)),
    {
        let ghost ls0 = old(self).sview().lines;
        let ghost cs0 = old(self).cursors();
        let ghost slen = s@.len() as int;
        let nrows = self.state.content.line_count();
        assert(r2 < nrows);
        let mut r = r1;
        while r <= r2
            invariant
                self.wf(),
                r1 <= r <= r2 + 1,
                r2 < ls0.len(),
                crate::content::line_ok(s@),
                1 <= slen <= isize::MAX,
                slen == s@.len(),
                text_of(ls0).len() + (r2 - r1 + 1) * slen <= usize::MAX,
                self.sview().lines.len() == ls0.len(),
                self.sview().lines == Seq::new(
                    ls0.len(),
                    |x: int|
                        if r1 <= x < r {
                            ins_row(ls0[x], s@, at_first_nonws)
                        } else {
                            ls0[x]
                        },
                ),
                self.text().len() <= text_of(ls0).len() + (r - r1) * slen,
                self.cursors().len() == cs0.len(),
                forall|i: int|
                    0 <= i < cs0.len() ==> (#[trigger] self.cursors()[i]).0 == cs0[i].0
                        && self.cursors()[i].1.preferred_x == cs0[i].1.preferred_x,
                r > r1 ==> self.dirty(),
                r == r1 ==> self.dirty() == old(self).dirty(),
                self.history_eq(*old(self)),
                self.admin_eq(*old(self)),
                nrows == ls0.len(),
            decreases r2 + 1 - r,
        {
            let ghost lsc = self.sview().lines;
            let ghost line = lsc[r as int];
            proof {
                assert(line == ls0[r as int]);
                assert((r - r1) * slen >= 0) by (nonlinear_arith)
                    requires r >= r1, slen >= 1;
                assert((r - r1) * slen + slen == (r + 1 - r1) * slen) by (nonlinear_arith);
                assert((r + 1 - r1) * slen <= (r2 - r1 + 1) * slen) by (nonlinear_arith)
                    requires r + 1 <= r2 + 1, slen >= 1, r1 <= r + 1;
                crate::content::lemma_line_start_bounds(lsc, r as int);
            }
            let chars = match self.state.content.line_chars(r) {
                Some(v) => v,
                None => {
                    proof {
                        assert(false);
                    }
                    Vec::new()
                },
            };
            let mut k: usize = 0;
            if at_first_nonws {
                let n = chars.len();
                proof {
                    lemma_lead_len_bounds(line);
                    assert(lead_len(line) == 0 + lead_len(line.skip(0))) by {
                        assert(line.skip(0) =~= line);
                    }
                }
                let mut stop = false;
                while k < n && !stop
                    invariant
                        n == line.len(),
                        chars@ == line,
                        k <= n,
                        lead_len(line) == k + lead_len(line.skip(k as int)),
                        stop ==> k < n && !crate::cursor::unicode_whitespace(line[k as int]),
                    decreases n - k + if stop { 0int } else { 1int },
                {
                    if crate::cursor::char_is_whitespace(chars[k]) {
                        proof {
                            assert(line.skip(k as int)[0] == line[k as int]);
                            assert(line.skip(k as int).drop_first() =~= line.skip(k + 1));
                        }
                        k = k + 1;
                    } else {
                        stop = true;
                    }
                }
                proof {
                    if !stop {
                        assert(line.skip(k as int).len() == 0);
                    }
                    assert(lead_len(line.skip(k as int)) == 0);
                    assert(k as int == lead_len(line));
                }
            }
            let q = self.line_start_exec(r);
            let ghost tcur = self.text();
            let ghost cscur = self.cursors();
            self.state.content.splice_in_line(r, k, s);
            proof {
                assert(cursors_in(cscur, usize::MAX - slen)) by {
                    assert(forall|i: int|
                        0 <= i < cscur.len() ==> (#[trigger] cscur[i]).1.pos + slen <= usize::MAX
                            && cscur[i].1.base + slen <= usize::MAX);
                }
            }
            self.shift_all(q + k, s.len() as isize);
            self.unsaved = true;
            r = r + 1;
            proof {
                assert(self.sview().lines =~= Seq::new(
                    ls0.len(),
                    |x: int|
                        if r1 <= x < r {
                            ins_row(ls0[x], s@, at_first_nonws)
                        } else {
                            ls0[x]
                        },
                ));
                assert(self.pastv() =~= old(self).pastv());
                assert(self.futurev() =~= old(self).futurev());
                assert(cursors_in(self.cursors(), self.spec_len())) by {
                    assert(forall|i: int|
                        0 <= i < self.cursors().len() ==> (#[trigger] self.cursors()[i]).1.pos
                            <= self.spec_len() && self.cursors()[i].1.base <= self.spec_len());
                }
            }
        }
        proof {
            assert(self.sview().lines =~= Seq::new(
                ls0.len(),
                |x: int|
                    if r1 <= x <= r2 {
                        ins_row(ls0[x], s@, at_first_nonws)
                    } else {
                        ls0[x]
                    },
            ));
        }
    }
}


/// A buffer never has more lines than text characters.
pub proof fn lemma_count_le_text(ls: Seq<Seq<char>>)
    ensures
        ls.len() <= text_of(ls).len(),
    decreases ls.len(),
{
    if ls.len() > 0 {
        lemma_count_le_text(ls.drop_first());
    }
}


/// The facts a well-formed buffer guarantees about its visible views, for
/// use outside this module.
pub proof fn lemma_wf_facts(b: SharedBuffer)
    requires
        b.wf(),
    ensures
        sv_wf(b.sview()),
        b.text() == text_of(b.sview().lines),
        b.text().len() >= 1,
        b.spec_len() >= 0,
        b.spec_len() == b.text().len() - 1,
        ids_unique(b.cursors()),
        cursors_in(b.cursors(), b.spec_len()),
        b.cursors() == b.sview().cursors,
        b.cfg().wf(),
        b.cfg().tab_width >= 1,
{
    crate::content::lemma_text_last(b.sview().lines);
}

/// What `admin_keep` says, spelled out for callers outside this module.
pub proof fn lemma_admin_keep_facts(a: SharedBuffer, b: SharedBuffer)
    requires
        a.admin_keep(b),
    ensures
        a.spec_path() == b.spec_path(),
        a.cfg() == b.cfg(),
{
}

/// What `admin_eq` says, spelled out for callers outside this module.
pub proof fn lemma_admin_eq_facts(a: SharedBuffer, b: SharedBuffer)
    requires
        a.admin_eq(b),
    ensures
        a.spec_path() == b.spec_path(),
        a.cfg() == b.cfg(),
        a.counter() == b.counter(),
{
}


impl SharedBuffer {
    /// Whether another cursor identity can still be minted.
    pub fn can_add_cursor(&self) -> (r: bool)
        ensures
            r == (self.counter() < usize::MAX),
            self.counter() <= usize::MAX,
    {
        self.cursor_id_counter < usize::MAX
    }
}


impl SharedBuffer {
    /// The full text as a string, final newline included.
    pub fn get_string(&self) -> (r: String)
        requires
            self.wf(),
        ensures
            r@ == self.text(),
    {
        self.state.content.get_string()
    }

    /// How many lines the buffer holds.
    pub fn line_count(&self) -> (r: usize)
        ensures
            r == self.sview().lines.len(),
    {
        self.state.content.line_count()
    }
}


impl Default for SharedBuffer {
    /// A fresh scratch buffer, exactly as [`SharedBuffer::new_scratch`]
    /// builds it.
    fn default() -> (r: Self)
        ensures
            r.wf(),
            r.text() == seq!['\n'],
            r.cursors().len() == 0,
            r.pastv().len() == 0,
            r.futurev().len() == 0,
            r.spec_path() is None,
            r.dirty(),
            r.cfg().tab_width == 4 && !r.cfg().hard_tabs && r.cfg().auto_indent
                && !r.cfg().insert_matching,
    {
        Self::new_scratch()
    }
}


/// Every snapshot a well-formed buffer retains is itself a well-formed
/// state, so the consequences of [`align_sv`] — and with them
/// [`lemma_undo_redo`] — apply to whatever `undo` or `redo` restores.
pub proof fn lemma_wf_history(b: SharedBuffer)
    requires
        b.wf(),
    ensures
        forall|i: int| 0 <= i < b.pastv().len() ==> sv_wf((#[trigger] b.pastv()[i]).0),
        forall|i: int| 0 <= i < b.futurev().len() ==> sv_wf(#[trigger] b.futurev()[i]),
{
}

impl SharedBuffer {
    /// The backing file path, readable against [`SharedBuffer::spec_path`].
    pub fn path_ref(&self) -> (r: &Option<String>)
        ensures
            *r == self.spec_path(),
    {
        &self.path
    }
}

/// Whether `c` opens a bracket pair.
pub open spec fn is_opener(c: char) -> bool {
    c == '(' || c == '[' || c == '{'
}

/// The closing bracket matching an opener.
pub open spec fn closer_of(c: char) -> char {
    if c == '(' {
        ')'
    } else if c == '[' {
        ']'
    } else {
        '}'
    }
}

/// One further level of indentation on top of the leading whitespace `w`: a
/// tab character under hard tabs, else spaces up to the next tab stop.
pub open spec fn indent_unit(w: Seq<char>, tab_width: int, hard_tabs: bool) -> Seq<char> {
    if hard_tabs {
        seq!['\t']
    } else {
        spaces(tab_width - line_width(w, tab_width) % tab_width)
    }
}

/// A column prefix is unaffected by what follows it.
pub proof fn lemma_width_prefix(l: Seq<char>, k: int, j: int, tw: int)
    requires
        0 <= j <= k <= l.len(),
    ensures
        width_upto(l.take(k), j, tw) == width_upto(l, j, tw),
    decreases j,
{
    if j > 0 {
        lemma_width_prefix(l, k, j - 1, tw);
        assert(l.take(k)[j - 1] == l[j - 1]);
    }
}

/// How the state changes when character `c` is typed: any selection goes
/// first; a newline under auto-indent copies the line's leading whitespace,
/// adds one level after an opening bracket and lays a matching closer out
/// on its own line; a soft tab fills to the next tab stop, or indents every
/// selected row when the selection spans several; an opener under
/// bracket-matching brings its closer along; anything else is spliced in
/// as it is.
pub open spec fn insert_post(
    pre: StateView,
    cfg: Config,
    id: CursorId,
    c: char,
    post: StateView,
    d2: bool,
) -> bool {
    let tw = cfg.tab_width as int;
    let c0 = lookup(pre.cursors, id)->Some_0;
    let m = c0.sel_min();
    let mm = c0.sel_max();
    let t0 = text_of(pre.lines);
    let multiline = c == '\t' && !cfg.hard_tabs && row_of(pre.lines, m) != row_of(pre.lines, mm);
    if multiline {
        let r1 = row_of(pre.lines, m);
        let r2 = row_of(pre.lines, mm);
        &&& post.lines == Seq::new(
            pre.lines.len(),
            |r: int|
                if r1 <= r <= r2 {
                    spaces(tw) + pre.lines[r]
                } else {
                    pre.lines[r]
                },
        )
        &&& post.cursors.len() == pre.cursors.len()
        &&& (forall|i: int|
            0 <= i < pre.cursors.len() ==> (#[trigger] post.cursors[i]).0 == pre.cursors[i].0)
        &&& d2
    } else {
        let t1 = t0.take(m) + t0.skip(mm);
        let cs1 = cursors_range_removed(pre.cursors, m, mm);
        let ls1 = lines_of(t1);
        let t2 = text_of(post.lines);
        if c == '\n' && cfg.auto_indent {
            let row = row_of(ls1, m);
            let w = leading_ws(ls1[row]);
            let left_open = m > 0 && is_opener(t1[m - 1]);
            let ins1 = seq!['\n'] + w + if left_open {
                indent_unit(w, tw, cfg.hard_tabs)
            } else {
                Seq::<char>::empty()
            };
            let ins2 = if left_open && t1[m] == closer_of(t1[m - 1]) {
                seq!['\n'] + w
            } else {
                Seq::<char>::empty()
            };
            &&& t2 == t1.take(m) + ins1 + ins2 + t1.skip(m)
            &&& post.cursors == upsert1(
                cursors_range_inserted(cs1, m, ins1.len() + ins2.len() as int),
                id,
                Cursor {
                    pos: (m + ins1.len()) as usize,
                    base: (m + ins1.len()) as usize,
                    preferred_x: c0.preferred_x,
                },
            )
            &&& d2
        } else if c == '\t' && !cfg.hard_tabs {
            let col = pos_loc_spec(ls1, m, tw).0;
            let cnt = tw - col % tw;
            &&& t2 == t1.take(m) + spaces(cnt) + t1.skip(m)
            &&& post.cursors == cursors_range_inserted(cs1, m, cnt)
            &&& d2
        } else if cfg.insert_matching && is_opener(c) {
            &&& t2 == t1.take(m) + seq![c, closer_of(c)] + t1.skip(m)
            &&& post.cursors == upsert1(
                cursors_range_inserted(cs1, m, 2),
                id,
                Cursor {
                    pos: (m + 1) as usize,
                    base: (m + 1) as usize,
                    preferred_x: c0.preferred_x,
                },
            )
            &&& d2
        } else {
            &&& t2 == t1.take(m) + seq![c] + t1.skip(m)
            &&& post.cursors == cursors_range_inserted(cs1, m, 1)
            &&& d2
        }
    }
}

impl SharedBuffer {
    /// The display width of the first `k` characters of row `row`.
    fn prefix_width(&self, row: usize, k: usize) -> (r: usize)
        requires
            self.wf(),
            row < self.sview().lines.len(),
            k <= self.sview().lines[row as int].len(),
            widths_fit(self.sview().lines, self.cfg().tab_width as int),
        ensures
            r == width_upto(self.sview().lines[row as int], k as int, self.cfg().tab_width as int),
    {
        let ghost l = self.sview().lines[row as int];
        let ghost tw = self.cfg().tab_width as int;
        let chars = match self.state.content.line_chars(row) {
            Some(v) => v,
            None => {
                proof {
                    assert(false);
                }
                Vec::new()
            },
        };
        let mut col: usize = 0;
        for j in 0..k
            invariant
                self.wf(),
                chars@ == l,
                l == self.sview().lines[row as int],
                row < self.sview().lines.len(),
                tw == self.cfg().tab_width as int,
                k <= l.len(),
                widths_fit(self.sview().lines, tw),
                col == width_upto(l, j as int, tw),
        {
            proof {
                crate::content::lemma_width_step(l, j as int, tw);
                crate::content::lemma_width_mono(l, j + 1, l.len() as int, tw);
            }
            if chars[j] == '\t' {
                col = col + (self.config.tab_width - col % self.config.tab_width);
            } else {
                col = col + 1;
            }
        }
        col
    }

    /// The length of row `row`'s leading whitespace.
    fn lead_prefix(&self, row: usize) -> (k: usize)
        requires
            self.wf(),
            row < self.sview().lines.len(),
        ensures
            k == lead_len(self.sview().lines[row as int]),
            k <= self.sview().lines[row as int].len(),
    {
        let ghost line = self.sview().lines[row as int];
        let chars = match self.state.content.line_chars(row) {
            Some(v) => v,
            None => {
                proof {
                    assert(false);
                }
                Vec::new()
            },
        };
        let n = chars.len();
        let mut k: usize = 0;
        proof {
            lemma_lead_len_bounds(line);
            assert(line.skip(0) =~= line);
        }
        let mut stop = false;
        while k < n && !stop
            invariant
                n == line.len(),
                chars@ == line,
                k <= n,
                lead_len(line) == k + lead_len(line.skip(k as int)),
                stop ==> k < n && !crate::cursor::unicode_whitespace(line[k as int]),
            decreases n - k + if stop { 0int } else { 1int },
        {
            if crate::cursor::char_is_whitespace(chars[k]) {
                proof {
                    assert(line.skip(k as int)[0] == line[k as int]);
                    assert(line.skip(k as int).drop_first() =~= line.skip(k + 1));
                }
                k = k + 1;
            } else {
                stop = true;
            }
        }
        proof {
            if !stop {
                assert(line.skip(k as int).len() == 0);
            }
            assert(lead_len(line.skip(k as int)) == 0);
        }
        k
    }

    /// The characters of row `row`'s leading whitespace.
    fn lead_chars(&self, row: usize) -> (w: Vec<char>)
        requires
            self.wf(),
            row < self.sview().lines.len(),
        ensures
            w@ == leading_ws(self.sview().lines[row as int]),
            w@.len() == lead_len(self.sview().lines[row as int]),
    {
        let ghost line = self.sview().lines[row as int];
        let k = self.lead_prefix(row);
        let chars = match self.state.content.line_chars(row) {
            Some(v) => v,
            None => {
                proof {
                    assert(false);
                }
                Vec::new()
            },
        };
        let mut w: Vec<char> = Vec::new();
        for j in 0..k
            invariant
                chars@ == line,
                k <= line.len(),
                w@ == line.take(k as int).take(j as int),
        {
            w.push(chars[j]);
            proof {
                assert(line.take(k as int).take(j as int).push(line[j as int]) =~= line.take(
                    k as int,
                ).take(j + 1));
            }
        }
        proof {
            assert(line.take(k as int).take(k as int) =~= line.take(k as int));
        }
        w
    }
}

/// Append every character of `src` to `dst`.
pub fn append_chars(dst: &mut Vec<char>, src: &Vec<char>)
    ensures
        final(dst)@ == old(dst)@ + src@,
{
    let n = src.len();
    proof {
        assert(dst@ + src@.take(0) =~= dst@);
    }
    for i in 0..n
        invariant
            n == src@.len(),
            dst@ == old(dst)@ + src@.take(i as int),
    {
        dst.push(src[i]);
        proof {
            assert((old(dst)@ + src@.take(i as int)).push(src@[i as int]) =~= old(dst)@
                + src@.take(i + 1));
        }
    }
    proof {
        assert(src@.take(n as int) =~= src@);
    }
}

/// The closing bracket matching an opener.
pub fn closer_for(c: char) -> (r: char)
    ensures
        r == closer_of(c),
{
    if c == '(' {
        ')'
    } else if c == '[' {
        ']'
    } else {
        '}'
    }
}

impl SharedBuffer {
    /// Insert a newline with auto-indent: the current line's leading
    /// whitespace is copied onto the new line; after an opening bracket one
    /// further indent level is added, and a matching closing bracket right
    /// of the cursor moves to a line of its own under the original
    /// indentation, the cursor resting at the end of the indented line.
    #[verifier::rlimit(60)]
    fn newline_indented(&mut self, id: CursorId)
        requires
            old(self).wf(),
            has_id(old(self).cursors(), id),
            widths_fit(old(self).sview().lines, old(self).cfg().tab_width as int),
            old(self).text().len() + 2 * old(self).text().len() + old(self).cfg().tab_width + 4
                <= usize::MAX,
        ensures
            final(self).wf(),
            ({
                let tw = old(self).cfg().tab_width as int;
                let t = old(self).text();
                let p = lookup(old(self).cursors(), id)->Some_0.pos as int;
                let row = row_of(old(self).sview().lines, p);
                let w = leading_ws(old(self).sview().lines[row]);
                let left_open = p > 0 && is_opener(t[p - 1]);
                let ins1 = seq!['\n'] + w + if left_open {
                    indent_unit(w, tw, old(self).cfg().hard_tabs)
                } else {
                    Seq::<char>::empty()
                };
                let ins2 = if left_open && t[p] == closer_of(t[p - 1]) {
                    seq!['\n'] + w
                } else {
                    Seq::<char>::empty()
                };
                &&& final(self).text() == t.take(p) + ins1 + ins2 + t.skip(p)
                &&& final(self).cursors() == upsert1(
                    cursors_range_inserted(old(self).cursors(), p, ins1.len() + ins2.len() as int),
                    id,
                    Cursor {
                        pos: (p + ins1.len()) as usize,
                        base: (p + ins1.len()) as usize,
                        preferred_x: lookup(old(self).cursors(), id)->Some_0.preferred_x,
                    },
                )
                &&& final(self).dirty()
            }),
            final(self).history_eq(*old(self)),
            final(self).admin_eq(*old(self)),
    {
        let ghost tw = self.cfg().tab_width as int;
        let ghost t = self.text();
        let c0 = self.cursor(id);
        let p = c0.pos;
        let rl = self.state.content.pos_to_rank_line(p);
        let row = rl.y;
        let ghost line = self.sview().lines[row as int];
        let w = self.lead_chars(row);
        proof {
            crate::content::lemma_line_start_bounds(self.sview().lines, row as int);
            lemma_lead_len_bounds(line);
        }
        let left: Option<char> = if p > 0 {
            self.state.content.char_at(p - 1)
        } else {
            None
        };
        let right: Option<char> = self.state.content.char_at(p);
        let left_open: bool = match left {
            Some(lc) => lc == '(' || lc == '[' || lc == '{',
            None => false,
        };
        let mut ins: Vec<char> = Vec::new();
        ins.push('\n');
        append_chars(&mut ins, &w);
        proof {
            assert(ins@ =~= seq!['\n'] + w@);
        }
        if left_open {
            if self.config.hard_tabs {
                ins.push('\t');
                proof {
                    assert(ins@ =~= seq!['\n'] + w@ + indent_unit(w@, tw, true));
                }
            } else {
                let k = w.len();
                proof {
                    lemma_width_prefix(line, lead_len(line), k as int, tw);
                    assert(w@ =~= line.take(k as int));
                    crate::content::lemma_width_mono(line, k as int, line.len() as int, tw);
                }
                let wd = self.prefix_width(row, k);
                let cnt = self.config.tab_width - wd % self.config.tab_width;
                let ghost base = ins@;
                let mut j: usize = 0;
                proof {
                    assert(base + spaces(0) =~= base);
                }
                while j < cnt
                    invariant
                        j <= cnt,
                        ins@ == base + spaces(j as int),
                    decreases cnt - j,
                {
                    ins.push(' ');
                    j = j + 1;
                    proof {
                        assert((base + spaces(j - 1)).push(' ') =~= base + spaces(j as int));
                    }
                }
                proof {
                    assert(line_width(w@, tw) == wd);
                    assert(ins@ =~= seq!['\n'] + w@ + indent_unit(w@, tw, false));
                }
            }
        }
        let l1 = ins.len();
        let ghost ins1 = ins@;
        let right_match: bool = left_open && match (left, right) {
            (Some(lc), Some(rc)) => rc == closer_for(lc),
            _ => false,
        };
        if right_match {
            ins.push('\n');
            append_chars(&mut ins, &w);
            proof {
                assert(ins@ =~= ins1 + (seq!['\n'] + w@));
            }
        }
        proof {
            assert(w@.len() <= t.len());
        }
        self.insert_chars(id, &ins);
        proof {
            crate::content::lemma_text_last(old(self).sview().lines);
        }
        self.put_cursor(
            id,
            Cursor { pos: p + l1, base: p + l1, preferred_x: c0.preferred_x },
        );
        proof {
            let ghost ins2 = if left_open && t[p as int] == closer_of(t[p as int - 1]) {
                seq!['\n'] + w@
            } else {
                Seq::<char>::empty()
            };
            assert(t.take(p as int) + (ins1 + ins2) + t.skip(p as int) =~= t.take(p as int) + ins1
                + ins2 + t.skip(p as int));
            assert(leading_ws(old(self).sview().lines[row as int]) == w@);
        }
    }

    /// Insert spaces up to the next tab stop.
    fn soft_tab(&mut self, id: CursorId)
        requires
            old(self).wf(),
            has_id(old(self).cursors(), id),
            widths_fit(old(self).sview().lines, old(self).cfg().tab_width as int),
            old(self).text().len() + old(self).cfg().tab_width <= usize::MAX,
        ensures
            final(self).wf(),
            ({
                let tw = old(self).cfg().tab_width as int;
                let t = old(self).text();
                let p = lookup(old(self).cursors(), id)->Some_0.pos as int;
                let col = pos_loc_spec(old(self).sview().lines, p, tw).0;
                let cnt = tw - col % tw;
                &&& final(self).text() == t.take(p) + spaces(cnt) + t.skip(p)
                &&& final(self).cursors() == cursors_range_inserted(old(self).cursors(), p, cnt)
                &&& final(self).dirty()
            }),
            final(self).history_eq(*old(self)),
            final(self).admin_eq(*old(self)),
    {
        let cl = self.cursor_loc(id);
        let cnt = self.config.tab_width - cl.x % self.config.tab_width;
        let mut v: Vec<char> = Vec::new();
        let mut j: usize = 0;
        proof {
            assert(v@ =~= spaces(0));
        }
        while j < cnt
            invariant
                j <= cnt,
                v@ == spaces(j as int),
            decreases cnt - j,
        {
            v.push(' ');
            j = j + 1;
            proof {
                assert(spaces(j - 1).push(' ') =~= spaces(j as int));
            }
        }
        self.insert_chars(id, &v);
    }

    /// Insert an opening bracket together with its closing partner, the
    /// cursor left between the two.
    fn auto_close(&mut self, id: CursorId, c: char)
        requires
            old(self).wf(),
            has_id(old(self).cursors(), id),
            old(self).text().len() + 2 <= usize::MAX,
        ensures
            final(self).wf(),
            ({
                let t = old(self).text();
                let p = lookup(old(self).cursors(), id)->Some_0.pos as int;
                &&& final(self).text() == t.take(p) + seq![c, closer_of(c)] + t.skip(p)
                &&& final(self).cursors() == upsert1(
                    cursors_range_inserted(old(self).cursors(), p, 2),
                    id,
                    Cursor {
                        pos: (p + 1) as usize,
                        base: (p + 1) as usize,
                        preferred_x: lookup(old(self).cursors(), id)->Some_0.preferred_x,
                    },
                )
                &&& final(self).dirty()
            }),
            final(self).history_eq(*old(self)),
            final(self).admin_eq(*old(self)),
    {
        let c0 = self.cursor(id);
        let p = c0.pos;
        let mut v: Vec<char> = Vec::new();
        v.push(c);
        v.push(closer_for(c));
        proof {
            assert(v@ =~= seq![c, closer_of(c)]);
            crate::content::lemma_text_last(old(self).sview().lines);
        }
        self.insert_chars(id, &v);
        self.put_cursor(
            id,
            Cursor { pos: p + 1, base: p + 1, preferred_x: c0.preferred_x },
        );
    }
}


/// Whether the line holds a space character at offset `q`.
pub open spec fn sp_at(l: Seq<char>, q: int) -> bool {
    q < l.len() && l[q] == ' '
}

/// How the state changes on backspace: a selection is deleted outright;
/// otherwise one character to the left goes, and under soft tabs a deleted
/// space completing a full tab stop of spaces takes the whole run back to
/// the previous stop with it.
pub open spec fn backspace_post(
    pre: StateView,
    cfg: Config,
    id: CursorId,
    post: StateView,
    d0: bool,
    d2: bool,
) -> bool {
    let tw = cfg.tab_width as int;
    let c0 = lookup(pre.cursors, id)->Some_0;
    let t0 = text_of(pre.lines);
    let t2 = text_of(post.lines);
    let pos = c0.pos as int;
    if c0.reaching() {
        &&& t2 == t0.take(c0.sel_min()) + t0.skip(c0.sel_max())
        &&& post.cursors == cursors_range_removed(pre.cursors, c0.sel_min(), c0.sel_max())
        &&& d2
    } else if pos == 0 {
        &&& t2 == t0
        &&& post.cursors == pre.cursors
        &&& d2 == d0
    } else {
        let t1 = t0.remove(pos - 1);
        let ls1 = lines_of(t1);
        let x = pos_loc_spec(ls1, pos - 1, tw).0;
        let base_x = x - x % tw;
        let row = row_of(ls1, pos - 1);
        let collapse = !cfg.hard_tabs && t0[pos - 1] == ' ' && (x + 1) % tw == 0 && x - base_x
            <= pos - 1 && (forall|i: int| base_x <= i < x ==> #[trigger] sp_at(ls1[row], i));
        if collapse {
            &&& t2 == t0.take(pos - 1 - (x - base_x)) + t0.skip(pos)
            &&& post.cursors == cursors_range_removed(
                pre.cursors,
                pos - 1 - (x - base_x),
                pos,
            )
            &&& d2
        } else {
            &&& t2 == t0.take(pos - 1) + t0.skip(pos)
            &&& post.cursors == cursors_range_removed(pre.cursors, pos - 1, pos)
            &&& d2
        }
    }
}

/// How the state changes on the comment command: `// ` lands at the first
/// non-whitespace column of every line the selection spans (the cursor's
/// line when there is none).
pub open spec fn comment_post(pre: StateView, id: CursorId, post: StateView, d2: bool) -> bool {
    let c0 = lookup(pre.cursors, id)->Some_0;
    let r1 = row_of(pre.lines, c0.sel_min());
    let r2 = row_of(pre.lines, c0.sel_max());
    &&& post.lines == Seq::new(
        pre.lines.len(),
        |r: int|
            if r1 <= r <= r2 {
                ins_row(pre.lines[r], seq!['/', '/', ' '], true)
            } else {
                pre.lines[r]
            },
    )
    &&& post.cursors.len() == pre.cursors.len()
    &&& (forall|i: int|
        0 <= i < pre.cursors.len() ==> (#[trigger] post.cursors[i]).0 == pre.cursors[i].0)
    &&& d2
}

impl SharedBuffer {
    /// Handle the insert-character command; see [`insert_post`] for the
    /// exact effect.
    pub fn insert_event(&mut self, id: CursorId, c: char)
        requires
            old(self).wf(),
            has_id(old(self).cursors(), id),
            old(self).cfg().tab_width <= isize::MAX as usize,
            old(self).text().len() * (old(self).cfg().tab_width as int + 2) + old(self).cfg().tab_width + 4 <= usize::MAX,
        ensures
            final(self).wf(),
            insert_post(
                old(self).sview(),
                old(self).cfg(),
                id,
                c,
                final(self).sview(),
                final(self).dirty(),
            ),
            final(self).history_eq(*old(self)),
            final(self).admin_eq(*old(self)),
    {
        let ghost tw = self.cfg().tab_width as int;
        let ghost t0 = self.text();
        let ghost cs0 = self.cursors();
        let ghost pre = self.sview();
        proof {
            assert(t0.len() * (tw + 2) == t0.len() * tw + t0.len() * 2) by (nonlinear_arith);
            crate::content::lemma_text_last(pre.lines);
        }
        let c0 = self.cursor(id);
        let m = if c0.base <= c0.pos {
            c0.base
        } else {
            c0.pos
        };
        let mm = if c0.base <= c0.pos {
            c0.pos
        } else {
            c0.base
        };
        if c == '\t' && !self.config.hard_tabs {
            let rl1 = self.state.content.pos_to_rank_line(m);
            let rl2 = self.state.content.pos_to_rank_line(mm);
            if rl1.y != rl2.y {
                let twx = self.config.tab_width;
                let mut unit: Vec<char> = Vec::new();
                let mut j: usize = 0;
                proof {
                    assert(unit@ =~= spaces(0));
                }
                while j < twx
                    invariant
                        j <= twx,
                        unit@ == spaces(j as int),
                    decreases twx - j,
                {
                    unit.push(' ');
                    j = j + 1;
                    proof {
                        assert(spaces(j - 1).push(' ') =~= spaces(j as int));
                    }
                }
                proof {
                    assert(crate::content::line_ok(unit@)) by {
                        assert(forall|q: int| 0 <= q < unit@.len() ==> unit@[q] == ' ');
                    }
                    assert(rl1.y < rl2.y) by {
                        if rl1.y > rl2.y {
                            crate::content::lemma_start_nondecreasing(
                                pre.lines,
                                rl2.y as int + 1,
                                rl1.y as int,
                            );
                            crate::content::lemma_line_start_step(pre.lines, rl2.y as int);
                            assert(false);
                        }
                    }
                    lemma_count_le_text(pre.lines);
                    assert((rl2.y - rl1.y + 1) * tw <= t0.len() * tw) by (nonlinear_arith)
                        requires tw >= 1, rl2.y - rl1.y + 1 <= t0.len();
                    crate::content::lemma_line_start_bounds(pre.lines, rl2.y as int);
                }
                self.insert_in_rows(rl1.y, rl2.y, false, &unit);
                proof {
                    assert(self.sview().lines =~= Seq::new(
                        pre.lines.len(),
                        |r: int|
                            if rl1.y <= r <= rl2.y {
                                spaces(tw) + pre.lines[r]
                            } else {
                                pre.lines[r]
                            },
                    )) by {
                        assert(forall|r: int|
                            rl1.y <= r <= rl2.y ==> ins_row(#[trigger] pre.lines[r], unit@, false)
                                =~= spaces(tw) + pre.lines[r]);
                    }
                }
                return;
            }
        }
        self.remove_selection(id);
        let ghost t1 = t0.take(m as int) + t0.skip(mm as int);
        let ghost cs1 = cursors_range_removed(cs0, m as int, mm as int);
        proof {
            crate::content::lemma_lines_of_text(self.sview().lines);
            assert(lines_of(t1) == self.sview().lines);
            let k = choose|k: int| 0 <= k < cs0.len() && (#[trigger] cs0[k]).0 == id;
            lemma_lookup_present(cs0, k);
            assert(cs1[k].0 == id);
            lemma_lookup_present(cs1, k);
            assert(lookup(cs1, id)->Some_0.pos == m);
            assert(has_id(cs1, id)) by {
                assert(cs1[k].0 == id);
            }
            crate::content::lemma_text_last(self.sview().lines);
            assert(self.text().len() * tw <= t0.len() * tw) by (nonlinear_arith)
                requires tw >= 1, self.text().len() <= t0.len();
            crate::content::lemma_widths_fit_of_bound(self.sview().lines, tw);
            assert(3 * self.text().len() <= t0.len() * tw + t0.len() * 2) by (nonlinear_arith)
                requires tw >= 1, self.text().len() <= t0.len();
        }
        if c == '\n' && self.config.auto_indent {
            self.newline_indented(id);
        } else if c == '\t' && !self.config.hard_tabs {
            self.soft_tab(id);
        } else if self.config.insert_matching && (c == '(' || c == '[' || c == '{') {
            self.auto_close(id, c);
        } else {
            let mut v: Vec<char> = Vec::new();
            v.push(c);
            proof {
                assert(v@ =~= seq![c]);
            }
            self.insert_chars(id, &v);
        }
    }

    /// Handle the backspace command; see [`backspace_post`] for the exact
    /// effect.
    #[verifier::rlimit(80)]
    pub fn backspace_event(&mut self, id: CursorId)
        requires
            old(self).wf(),
            has_id(old(self).cursors(), id),
            old(self).cfg().tab_width <= isize::MAX as usize,
            old(self).text().len() * (old(self).cfg().tab_width as int + 2) + old(self).cfg().tab_width + 4 <= usize::MAX,
        ensures
            final(self).wf(),
            backspace_post(
                old(self).sview(),
                old(self).cfg(),
                id,
                final(self).sview(),
                old(self).dirty(),
                final(self).dirty(),
            ),
            final(self).history_eq(*old(self)),
            final(self).admin_eq(*old(self)),
    {
        let ghost tw = self.cfg().tab_width as int;
        let ghost t0 = self.text();
        let ghost cs0 = self.cursors();
        let ghost pre = self.sview();
        let c0 = self.cursor(id);
        if c0.base != c0.pos {
            self.remove_selection(id);
            return;
        }
        if c0.pos == 0 {
            return;
        }
        let deleted: Option<char> = self.state.content.char_at(c0.pos - 1);
        self.backspace(id);
        let ghost t1 = t0.remove(c0.pos - 1);
        proof {
            assert(self.text() == t1);
            crate::content::lemma_lines_of_text(self.sview().lines);
            let k = choose|k: int| 0 <= k < cs0.len() && (#[trigger] cs0[k]).0 == id;
            lemma_lookup_present(cs0, k);
            assert(self.cursors()[k].0 == id);
            lemma_lookup_present(self.cursors(), k);
            assert(lookup(self.cursors(), id)->Some_0.pos == c0.pos - 1);
            assert(has_id(self.cursors(), id)) by {
                assert(self.cursors()[k].0 == id);
            }
            assert(t0.len() * (tw + 2) == t0.len() * tw + t0.len() * 2) by (nonlinear_arith);
            assert(self.text().len() * tw <= t0.len() * tw) by (nonlinear_arith)
                requires tw >= 1, self.text().len() <= t0.len();
            crate::content::lemma_widths_fit_of_bound(self.sview().lines, tw);
        }
        if self.config.hard_tabs {
            return;
        }
        let was_space: bool = match deleted {
            Some(dc) => dc == ' ',
            None => false,
        };
        if !was_space {
            return;
        }
        let cl = self.cursor_loc(id);
        let x = cl.x;
        proof {
            assert((x as int) % tw <= x as int && 0 <= (x as int) % tw < tw) by (nonlinear_arith)
                requires tw >= 1, x >= 0;
        }
        let base_x = x - x % self.config.tab_width;
        if x % self.config.tab_width != self.config.tab_width - 1 {
            proof {
                assert((x as int + 1) % tw != 0) by (nonlinear_arith)
                    requires tw >= 1, x >= 0, (x as int) % tw != tw - 1;
            }
            return;
        }
        proof {
            assert((x as int + 1) % tw == 0) by (nonlinear_arith)
                requires tw >= 1, x >= 0, (x as int) % tw == tw - 1;
        }
        let rl = self.state.content.pos_to_rank_line(c0.pos - 1);
        let row = rl.y;
        let chars = match self.state.content.line_chars(row) {
            Some(v) => v,
            None => {
                proof {
                    assert(false);
                }
                Vec::new()
            },
        };
        let ghost line = lines_of(t1)[row as int];
        let mut all_sp = true;
        let mut i = base_x;
        while i < x && all_sp
            invariant
                chars@ == line,
                base_x <= i <= x,
                all_sp ==> (forall|q: int| base_x <= q < i ==> #[trigger] sp_at(line, q)),
                !all_sp ==> (exists|q: int| base_x <= q < x && !(#[trigger] sp_at(line, q))),
            decreases x - i + if all_sp { 1int } else { 0int },
        {
            if i < chars.len() && chars[i] == ' ' {
                proof {
                    assert(sp_at(line, i as int));
                }
                i = i + 1;
            } else {
                all_sp = false;
                proof {
                    let qi = i as int;
                    assert(!sp_at(line, qi));
                    assert(base_x <= qi < x && !(sp_at(line, qi)));
                }
            }
        }
        if !all_sp {
            proof {
                let qw = choose|q: int| base_x <= q < x && !(#[trigger] sp_at(line, q));
                assert(!sp_at(line, qw));
            }
            return;
        }
        let c1 = self.cursor(id);
        if x - base_x > c1.pos {
            return;
        }
        proof {
            assert(c1.pos == c0.pos - 1);
            assert(row == row_of(lines_of(t1), c0.pos - 1));
            assert(x == pos_loc_spec(lines_of(t1), c0.pos - 1, tw).0);
        }
        self.remove_range(c1.pos - (x - base_x), c1.pos);
        proof {
            assert(self.text() =~= t0.take(c0.pos - 1 - (x - base_x)) + t0.skip(c0.pos as int));
            assert(self.cursors() =~= cursors_range_removed(
                cs0,
                c0.pos - 1 - (x - base_x),
                c0.pos as int,
            ));
        }
    }

    /// Handle the comment command; see [`comment_post`] for the exact
    /// effect.
    pub fn comment_event(&mut self, id: CursorId)
        requires
            old(self).wf(),
            has_id(old(self).cursors(), id),
            old(self).text().len() + 3 * old(self).text().len() <= usize::MAX,
        ensures
            final(self).wf(),
            comment_post(old(self).sview(), id, final(self).sview(), final(self).dirty()),
            final(self).history_eq(*old(self)),
            final(self).admin_eq(*old(self)),
    {
        let ghost pre = self.sview();
        let c0 = self.cursor(id);
        let m = if c0.base <= c0.pos {
            c0.base
        } else {
            c0.pos
        };
        let mm = if c0.base <= c0.pos {
            c0.pos
        } else {
            c0.base
        };
        let rl1 = self.state.content.pos_to_rank_line(m);
        let rl2 = self.state.content.pos_to_rank_line(mm);
        let mut sv: Vec<char> = Vec::new();
        sv.push('/');
        sv.push('/');
        sv.push(' ');
        proof {
            assert(sv@ =~= seq!['/', '/', ' ']);
            assert(rl1.y <= rl2.y) by {
                if rl1.y > rl2.y {
                    crate::content::lemma_start_nondecreasing(
                        pre.lines,
                        rl2.y as int + 1,
                        rl1.y as int,
                    );
                    crate::content::lemma_line_start_step(pre.lines, rl2.y as int);
                    assert(false);
                }
            }
            lemma_count_le_text(pre.lines);
            assert((rl2.y - rl1.y + 1) * 3 <= self.text().len() * 3) by (nonlinear_arith)
                requires rl2.y - rl1.y + 1 <= self.text().len();
            crate::content::lemma_line_start_bounds(pre.lines, rl2.y as int);
        }
        self.insert_in_rows(rl1.y, rl2.y, true, &sv);
        proof {
            assert(self.sview().lines =~= Seq::new(
                pre.lines.len(),
                |r: int|
                    if rl1.y <= r <= rl2.y {
                        ins_row(pre.lines[r], seq!['/', '/', ' '], true)
                    } else {
                        pre.lines[r]
                    },
            ));
        }
    }
}

/// The past stack an edit burst leaves behind: coalesced into the newest
/// entry when its stamp lies within the window, else pushed and trimmed.
pub open spec fn past_after_edit(
    past: Seq<(StateView, Option<u64>)>,
    sv: StateView,
    now: u64,
) -> Seq<(StateView, Option<u64>)> {
    if past.len() > 0 && coalesces(past.last().1, now) {
        past.update(past.len() - 1, (past.last().0, Some(now)))
    } else {
        trimmed(past.push((sv, Some(now))))
    }
}


/// The machine bounds under which a buffer can take any editing command:
/// exactly [`SharedBuffer::handle`]'s size preconditions.
pub open spec fn edit_guard(b: SharedBuffer, event: Event) -> bool {
    &&& b.cfg().tab_width <= isize::MAX as usize
    &&& b.text().len() * (b.cfg().tab_width as int + 4) + b.cfg().tab_width + 4 <= usize::MAX
    &&& (event matches Event::Paste(sp) ==> b.text().len() + sp@.len() <= usize::MAX)
}

/// Everything [`SharedBuffer::handle`] guarantees: administrative fields
/// kept, exact routing (`Err` exactly for non-buffer commands, untouched
/// state alongside it), the undo-step discipline for mutating commands,
/// and for each command the exact effect on text, cursors, history and the
/// returned clipboard text.
pub open spec fn handle_post(
    pre: SharedBuffer,
    id: CursorId,
    event: Event,
    now: u64,
    post: SharedBuffer,
    r: Result<Option<String>, Event>,
) -> bool {
    &&& post.admin_keep(pre)
    &&& (r is Err <==> !is_buffer_event(event))
    &&& (r matches Err(e2) ==> e2 == event && post.sview() == pre.sview()
        && post.history_eq(pre) && post.dirty() == pre.dirty())
    &&& (is_mutating_event(event) ==> post.futurev().len() == 0 && post.pastv()
        == past_after_edit(pre.pastv(), pre.sview(), now))
    &&& match event {
        Event::Insert(c) => insert_post(
            pre.sview(),
            pre.cfg(),
            id,
            c,
            post.sview(),
            post.dirty(),
        ),
        Event::Backspace => backspace_post(
            pre.sview(),
            pre.cfg(),
            id,
            post.sview(),
            pre.dirty(),
            post.dirty(),
        ),
        Event::BackspaceWord => {
            let p = lookup(pre.cursors(), id)->Some_0.pos as int;
            let j = jump_left(pre.text(), p);
            &&& post.text() == pre.text().take(j) + pre.text().skip(p)
            &&& post.cursors() == cursors_range_removed(pre.cursors(), j, p)
        },
        Event::Delete => {
            let p = lookup(pre.cursors(), id)->Some_0.pos as int;
            &&& (p < pre.spec_len() ==> post.text() == pre.text().remove(p))
            &&& (p == pre.spec_len() ==> post.text() == pre.text())
            &&& post.cursors() == cursors_range_removed(
                pre.cursors(),
                p,
                p + 1,
            )
        },
        Event::Comment => comment_post(
            pre.sview(),
            id,
            post.sview(),
            post.dirty(),
        ),
        Event::Undo => {
            &&& pre.pastv().len() == 0 ==> post.sview() == pre.sview()
                && post.history_eq(pre)
            &&& pre.pastv().len() > 0 ==> post.pastv() == pre.pastv().drop_last() && post.futurev() == pre.futurev().push(
                pre.sview(),
            ) && post.sview() == align_sv(
                pre.sview(),
                pre.pastv().last().0,
            )
        },
        Event::Redo => {
            &&& pre.futurev().len() == 0 ==> post.sview() == pre.sview() && post.history_eq(pre)
            &&& pre.futurev().len() > 0 ==> post.futurev() == pre.futurev().drop_last() && post.pastv() == pre.pastv().push(
                (pre.sview(), None),
            ) && post.sview() == align_sv(
                pre.sview(),
                pre.futurev().last(),
            )
        },
        Event::CursorMove(dir, reach) => {
            &&& post.cursors() == upsert1(
                pre.cursors(),
                id,
                movement_result(
                    pre.sview().lines,
                    pre.cfg().tab_width as int,
                    lookup(pre.cursors(), id)->Some_0,
                    dir,
                    reach,
                    Move::By(1),
                ),
            )
            &&& post.sview().lines == pre.sview().lines
            &&& post.history_eq(pre)
            &&& post.dirty() == pre.dirty()
        },
        Event::CursorJump(dir, reach) => {
            &&& post.cursors() == upsert1(
                pre.cursors(),
                id,
                movement_result(
                    pre.sview().lines,
                    pre.cfg().tab_width as int,
                    lookup(pre.cursors(), id)->Some_0,
                    dir,
                    reach,
                    Move::Jump,
                ),
            )
            &&& post.sview().lines == pre.sview().lines
            &&& post.history_eq(pre)
            &&& post.dirty() == pre.dirty()
        },
        Event::SelectAll => post.cursors() == upsert1(
            pre.cursors(),
            id,
            Cursor {
                base: 0,
                pos: pre.spec_len() as usize,
                preferred_x: lookup(pre.cursors(), id)->Some_0.preferred_x,
            },
        ) && post.sview().lines == pre.sview().lines && post.history_eq(pre),
        Event::Cut => {
            let c0 = lookup(pre.cursors(), id)->Some_0;
            &&& post.text() == pre.text().take(c0.sel_min()) + pre.text().skip(c0.sel_max())
            &&& post.cursors() == cursors_range_removed(
                pre.cursors(),
                c0.sel_min(),
                c0.sel_max(),
            )
            &&& r matches Ok(txt) && txt matches Some(st) && st@ == pre.text().subrange(c0.sel_min(), c0.sel_max())
        },
        Event::Copy => {
            let c0 = lookup(pre.cursors(), id)->Some_0;
            &&& post.sview() == pre.sview()
            &&& post.history_eq(pre)
            &&& post.dirty() == pre.dirty()
            &&& r matches Ok(txt) && txt matches Some(st) && st@ == pre.text().subrange(c0.sel_min(), c0.sel_max())
        },
        Event::Paste(sp) => {
            let p = lookup(pre.cursors(), id)->Some_0.pos as int;
            &&& post.text() == pre.text().take(p) + sp@ + pre.text().skip(p)
            &&& post.cursors() == cursors_range_inserted(
                pre.cursors(),
                p,
                sp@.len() as int,
            )
        },
        Event::Duplicate => {
            let c0 = lookup(pre.cursors(), id)->Some_0;
            if c0.reaching() {
                let sel = pre.text().subrange(c0.sel_min(), c0.sel_max());
                &&& post.text() == pre.text().take(c0.sel_max()) + sel + pre.text().skip(c0.sel_max())
                &&& post.cursors() == cursors_range_inserted(
                    pre.cursors(),
                    c0.sel_max(),
                    sel.len() as int,
                )
            } else {
                let row = row_of(pre.sview().lines, c0.pos as int);
                let l = pre.sview().lines[row];
                if pre.text().len() + l.len() + 1 <= usize::MAX {
                    post.sview().lines == pre.sview().lines.insert(
                        row + 1,
                        l,
                    ) && post.cursors() == pre.cursors()
                } else {
                    post.sview() == pre.sview()
                }
            }
        },
        _ => true,
    }
}

impl SharedBuffer {
    /// Insert every character of `v` at position `at`, without regard to
    /// any cursor; every cursor at or past `at` shifts right.
    fn insert_chars_at(&mut self, at: usize, v: &Vec<char>)
        requires
            old(self).wf(),
            at <= old(self).spec_len(),
            old(self).text().len() + v@.len() <= usize::MAX,
        ensures
            final(self).wf(),
            final(self).text() == old(self).text().take(at as int) + v@ + old(self).text().skip(
                at as int,
            ),
            final(self).cursors() == cursors_range_inserted(
                old(self).cursors(),
                at as int,
                v@.len() as int,
            ),
            v@.len() > 0 ==> final(self).dirty(),
            v@.len() == 0 ==> final(self).dirty() == old(self).dirty(),
            final(self).history_eq(*old(self)),
            final(self).admin_eq(*old(self)),
    {
        let ghost p = at as int;
        let ghost t = self.text();
        let ghost cs0 = self.cursors();
        let n = v.len();
        proof {
            assert(t.take(p) + v@.take(0) + t.skip(p) =~= t);
            assert(cursors_range_inserted(cs0, p, 0) =~= cs0);
        }
        for i in 0..n
            invariant
                self.wf(),
                n == v@.len(),
                p == at as int,
                0 <= p <= t.len() - 1,
                t.len() + n <= usize::MAX,
                cursors_in(cs0, t.len() - 1),
                self.text() == t.take(p) + v@.take(i as int) + t.skip(p),
                self.cursors() == cursors_range_inserted(cs0, p, i as int),
                self.history_eq(*old(self)),
                self.admin_eq(*old(self)),
                i > 0 ==> self.dirty(),
                i == 0 ==> self.dirty() == old(self).dirty(),
        {
            let ghost prev = self.cursors();
            let ghost at_i = p + i;
            proof {
                assert(self.text().len() == t.len() + i);
            }
            assert(at + i <= self.spec_len());
            self.insert_at(at + i, v[i]);
            proof {
                assert(self.text() =~= t.take(p) + v@.take(i + 1) + t.skip(p));
                assert forall|j: int| 0 <= j < cs0.len() implies self.cursors()[j]
                    == cursors_range_inserted(cs0, p, i + 1)[j] by {
                    assert(prev[j] == cursors_range_inserted(cs0, p, i as int)[j]);
                    assert(self.cursors()[j] == (
                        prev[j].0,
                        Cursor {
                            base: shifted(prev[j].1.base as int, at_i, 1) as usize,
                            pos: shifted(prev[j].1.pos as int, at_i, 1) as usize,
                            preferred_x: prev[j].1.preferred_x,
                        },
                    ));
                    assert(prev[j].1.base as int == range_inserted(
                        cs0[j].1.base as int,
                        p,
                        i as int,
                    ));
                    assert(prev[j].1.pos as int == range_inserted(
                        cs0[j].1.pos as int,
                        p,
                        i as int,
                    ));
                }
                assert(self.cursors() =~= cursors_range_inserted(cs0, p, i + 1));
            }
        }
        proof {
            assert(v@.take(n as int) =~= v@);
        }
    }

    /// Handle one editing command at clock reading `now`: movement and
    /// selection commands adjust the cursor registered under `id`; mutating
    /// commands first settle the undo step (see [`past_after_edit`]) and
    /// then edit as the matching `_post` predicate says; `Cut` and `Copy`
    /// hand the affected text back for the caller's clipboard; any command
    /// that is not buffer-level comes back unconsumed as `Err`.
    pub fn handle(&mut self, id: CursorId, event: Event, now: u64) -> (r: Result<
        Option<String>,
        Event,
    >)
        requires
            old(self).wf(),
            has_id(old(self).cursors(), id),
            old(self).cfg().tab_width <= isize::MAX as usize,
            old(self).text().len() * (old(self).cfg().tab_width as int + 4) + old(self).cfg().tab_width + 4 <= usize::MAX,
            event matches Event::Paste(sp) ==> old(self).text().len() + sp@.len() <= usize::MAX,
        ensures
            final(self).wf(),
            handle_post(*old(self), id, event, now, *final(self), r),
    {
        let ghost pre = self.sview();
        let ghost tw = self.cfg().tab_width as int;
        proof {
            assert(pre.lines.len() >= 1);
            crate::content::lemma_text_last(pre.lines);
            assert(self.text().len() * (tw + 4) == self.text().len() * tw + self.text().len()
                * 4) by (nonlinear_arith);
            assert(self.text().len() * (tw + 2) == self.text().len() * tw + self.text().len()
                * 2) by (nonlinear_arith);
            crate::content::lemma_widths_fit_of_bound(pre.lines, tw);
        }
        match event {
            Event::CursorMove(dir, reach) => {
                self.do_cursor_movement(id, dir, reach, Move::By(1));
                Ok(None)
            },
            Event::CursorJump(dir, reach) => {
                self.do_cursor_movement(id, dir, reach, Move::Jump);
                Ok(None)
            },
            Event::SelectAll => {
                self.select_all(id);
                Ok(None)
            },
            Event::Undo => {
                self.undo();
                Ok(None)
            },
            Event::Redo => {
                self.redo();
                Ok(None)
            },
            Event::Copy => {
                proof {
                    crate::content::lemma_text_last(pre.lines);
                }
                let st = self.get_selection_string(id);
                proof {
                    assert(st@ == self.text().subrange(
                        lookup(self.cursors(), id)->Some_0.sel_min(),
                        lookup(self.cursors(), id)->Some_0.sel_max(),
                    ));
                }
                Ok(Some(st))
            },
            Event::Insert(c) => {
                self.pre_edit(now);
                self.insert_event(id, c);
                Ok(None)
            },
            Event::Backspace => {
                self.pre_edit(now);
                self.backspace_event(id);
                Ok(None)
            },
            Event::BackspaceWord => {
                self.pre_edit(now);
                self.backspace_word(id);
                Ok(None)
            },
            Event::Delete => {
                self.pre_edit(now);
                self.delete(id);
                Ok(None)
            },
            Event::Comment => {
                self.pre_edit(now);
                self.comment_event(id);
                Ok(None)
            },
            Event::Cut => {
                self.pre_edit(now);
                let st = self.get_selection_string(id);
                proof {
                    assert(self.sview() == pre);
                    assert(st@ == text_of(pre.lines).subrange(
                        lookup(pre.cursors, id)->Some_0.sel_min(),
                        lookup(pre.cursors, id)->Some_0.sel_max(),
                    ));
                }
                self.remove_selection(id);
                Ok(Some(st))
            },
            Event::Paste(sp) => {
                self.pre_edit(now);
                self.insert_str(id, sp.as_str());
                Ok(None)
            },
            Event::Duplicate => {
                self.pre_edit(now);
                let c0 = self.cursor(id);
                if c0.base != c0.pos {
                    let sel = self.selection(id);
                    let mm = if c0.base <= c0.pos {
                        c0.pos
                    } else {
                        c0.base
                    };
                    proof {
                        assert(sel@.len() <= self.text().len());
                    }
                    self.insert_chars_at(mm, &sel);
                } else {
                    self.duplicate_line(id);
                }
                Ok(None)
            },
            other => Err(other),
        }
    }
}

} // verus!
