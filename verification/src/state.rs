//! The central registry that owns every open buffer. Views hold only a
//! [`BufferHandle`] — a buffer identity plus a cursor identity — and all
//! access goes through the registry, which keeps one viewer count per
//! buffer; closing a buffer is an explicit operation gated on that count.

use vstd::prelude::*;
use crate::cursor::Cursor;
use crate::event::Event;
use vstd::string::*;
use crate::shared::BufferId;
use crate::shared::CursorId;
use crate::shared::SharedBuffer;
use crate::shared::has_id;
use crate::shared::lookup;
use crate::shared::edit_guard;
use crate::shared::handle_post;

verus! {

/// A capability referencing one buffer and one cursor within it.
#[derive(Copy, Clone, Debug, PartialEq, Eq, Structural)]
pub struct BufferHandle {
    pub buffer_id: BufferId,
    pub cursor_id: CursorId,
}

/// One registry slot: a buffer under its identity, with the number of live
/// handles viewing it.
struct Slot {
    id: BufferId,
    buffer: SharedBuffer,
    viewers: usize,
}

/// The registry of open buffers.
pub struct State {
    buffers: Vec<Slot>,
    id_counter: usize,
    recent: Vec<BufferHandle>,
}

impl State {
    /// The identities currently registered, in registration order.
    pub closed spec fn ids(self) -> Seq<BufferId> {
        self.buffers@.map_values(|s: Slot| s.id)
    }

    /// Whether `id` is registered.
    pub closed spec fn spec_has(self, id: BufferId) -> bool {
        exists|i: int| 0 <= i < self.ids().len() && self.ids()[i] == id
    }

    pub closed spec fn slot_of(self, id: BufferId) -> int {
        choose|i: int| 0 <= i < self.ids().len() && self.ids()[i] == id
    }

    /// The buffer registered under `id`.
    pub closed spec fn buf(self, id: BufferId) -> SharedBuffer {
        self.buffers@[self.slot_of(id)].buffer
    }

    /// The viewer count of the buffer registered under `id`.
    pub closed spec fn viewers_of(self, id: BufferId) -> int {
        self.buffers@[self.slot_of(id)].viewers as int
    }

    /// The most-recently-used handles, oldest first.
    pub closed spec fn recent_seq(self) -> Seq<BufferHandle> {
        self.recent@
    }

    pub closed spec fn wf(self) -> bool {
        &&& (forall|i: int, j: int|
            0 <= i < j < self.buffers@.len() ==> (#[trigger] self.buffers@[i]).id != (
            #[trigger] self.buffers@[j]).id)
        &&& (forall|i: int|
            0 <= i < self.buffers@.len() ==> (#[trigger] self.buffers@[i]).buffer.wf())
        &&& (forall|i: int|
            0 <= i < self.buffers@.len() ==> (#[trigger] self.buffers@[i]).id.0
                <= self.id_counter)
    }

    /// An empty registry.
    pub fn new() -> (r: State)
        ensures
            r.wf(),
            r.ids().len() == 0,
            r.recent_seq().len() == 0,
    {
        let r = State { buffers: Vec::new(), id_counter: 0, recent: Vec::new() };
        proof {
            assert(r.ids() =~= Seq::<BufferId>::empty());
        }
        r
    }

    /// The slot index registered under `id`, if any.
    fn find(&self, id: BufferId) -> (r: Option<usize>)
        requires
            self.wf(),
        ensures
            match r {
                Some(i) => i < self.buffers@.len() && self.buffers@[i as int].id == id
                    && self.spec_has(id) && self.slot_of(id) == i,
                None => !self.spec_has(id),
            },
    {
        let n = self.buffers.len();
        for i in 0..n
            invariant
                self.wf(),
                n == self.buffers@.len(),
                forall|k: int| 0 <= k < i ==> (#[trigger] self.buffers@[k]).id != id,
        {
            if self.buffers[i].id == id {
                proof {
                    assert(self.ids()[i as int] == id);
                    let j = self.slot_of(id);
                    assert(self.ids()[j] == id);
                    if j != i {
                        assert(self.buffers@[j].id == self.buffers@[i as int].id);
                        assert(false);
                    }
                }
                return Some(i);
            }
        }
        proof {
            if self.spec_has(id) {
                let j = self.slot_of(id);
                assert(self.ids()[j] == id);
                assert(false);
            }
        }
        None
    }

    /// Whether a buffer is registered under `id`.
    pub fn has_buffer(&self, id: BufferId) -> (r: bool)
        requires
            self.wf(),
        ensures
            r == self.spec_has(id),
    {
        self.find(id).is_some()
    }

    /// Register a buffer, give it a fresh identity, open the registry's own
    /// bookkeeping handle on it (so it appears in the recent list), and
    /// return the identity.
    pub fn insert_buffer(&mut self, buf: SharedBuffer) -> (id: BufferId)
        requires
            old(self).wf(),
            buf.wf(),
            old(self).counter() < usize::MAX,
            buf.counter() < usize::MAX,
        ensures
            final(self).wf(),
            final(self).spec_has(id),
            !old(self).spec_has(id),
            final(self).counter() == old(self).counter() + 1,
            final(self).viewers_of(id) == 1,
            final(self).buf(id).cursors() == buf.cursors().push(
                (final(self).recent_seq().last().cursor_id, Cursor { base: 0, pos: 0, preferred_x: None }),
            ),
            has_id(final(self).buf(id).cursors(), final(self).recent_seq().last().cursor_id),
            final(self).buf(id).text() == buf.text(),
            final(self).buf(id).sview().lines == buf.sview().lines,
            final(self).buf(id).history_eq(buf),
            final(self).buf(id).dirty() == buf.dirty(),
            final(self).buf(id).spec_path() == buf.spec_path(),
            final(self).buf(id).cfg() == buf.cfg(),
            final(self).recent_seq() == old(self).recent_seq().push(
                BufferHandle { buffer_id: id, cursor_id: final(self).recent_seq().last().cursor_id },
            ),
            final(self).recent_seq().len() == old(self).recent_seq().len() + 1,
            final(self).recent_seq().last().buffer_id == id,
            forall|q: BufferId| q != id ==> #[trigger] final(self).spec_has(q) == old(
                self,
            ).spec_has(q),
            forall|q: BufferId|
                q != id && old(self).spec_has(q) ==> #[trigger] final(self).buf(q) == old(
                    self,
                ).buf(q) && final(self).viewers_of(q) == old(self).viewers_of(q),
    {
        self.id_counter = self.id_counter + 1;
        let id = BufferId(self.id_counter);
        proof {
            if old(self).spec_has(id) {
                let j = old(self).slot_of(id);
                assert(old(self).ids()[j] == id);
                assert(false);
            }
        }
        let mut b = buf;
        proof {
            crate::shared::lemma_wf_facts(b);
        }
        let cid = b.insert_cursor(Cursor::default());
        let ghost btext = b.text();
        proof {
            assert(btext == buf.text());
        }
        self.buffers.push(Slot { id, buffer: b, viewers: 1 });
        let handle = BufferHandle { buffer_id: id, cursor_id: cid };
        self.recent.push(handle);
        proof {
            let n = self.buffers@.len() - 1;
            assert(self.buffers@[n].id == id);
            assert(self.ids()[n] == id);
            assert(forall|a: int, b2: int|
                0 <= a < b2 < self.buffers@.len() ==> (#[trigger] self.buffers@[a]).id != (
                #[trigger] self.buffers@[b2]).id);
            let k = self.slot_of(id);
            assert(self.ids()[k] == id);
            if k != n {
                assert(false);
            }
            crate::shared::lemma_admin_keep_facts(self.buffers@[n].buffer, buf);
            assert forall|q: BufferId| q != id implies #[trigger] self.spec_has(q) == old(
                self,
            ).spec_has(q) by {
                if old(self).spec_has(q) {
                    let j = old(self).slot_of(q);
                    assert(old(self).ids()[j] == q);
                    assert(self.ids()[j] == q);
                }
                if self.spec_has(q) {
                    let j = self.slot_of(q);
                    assert(self.ids()[j] == q);
                    assert(j != n);
                    assert(old(self).ids()[j] == q);
                }
            }
            assert forall|q: BufferId| q != id && old(self).spec_has(q) implies #[trigger] self
                .buf(q) == old(self).buf(q) && self.viewers_of(q) == old(self).viewers_of(
                q,
            ) by {
                let j = old(self).slot_of(q);
                assert(old(self).ids()[j] == q);
                assert(self.ids()[j] == q);
                let j2 = self.slot_of(q);
                assert(self.ids()[j2] == q);
                if j2 != j {
                    assert(j2 != n && j != n);
                    assert(old(self).buffers@[j2].id == old(self).buffers@[j].id);
                    assert(false);
                }
                assert(self.buffers@[j] == old(self).buffers@[j]);
            }
            assert(self.recent@ =~= old(self).recent@.push(handle));
        }
        id
    }

    /// A fresh scratch buffer, registered: one empty line, unsaved, no
    /// path, one viewer (the registry's bookkeeping handle), and no other
    /// buffer touched.
    pub fn new_empty_buffer(&mut self) -> (id: BufferId)
        requires
            old(self).wf(),
            old(self).counter() < usize::MAX,
        ensures
            final(self).wf(),
            final(self).spec_has(id),
            !old(self).spec_has(id),
            final(self).counter() == old(self).counter() + 1,
            final(self).viewers_of(id) == 1,
            final(self).buf(id).text() == seq!['\n'],
            final(self).buf(id).cursors().len() == 1,
            final(self).buf(id).dirty(),
            final(self).buf(id).spec_path() is None,
            final(self).recent_seq().len() == old(self).recent_seq().len() + 1,
            final(self).recent_seq().last().buffer_id == id,
            forall|q: BufferId| q != id ==> #[trigger] final(self).spec_has(q) == old(
                self,
            ).spec_has(q),
            forall|q: BufferId|
                q != id && old(self).spec_has(q) ==> #[trigger] final(self).buf(q) == old(
                    self,
                ).buf(q) && final(self).viewers_of(q) == old(self).viewers_of(q),
    {
        self.insert_buffer(SharedBuffer::new_scratch())
    }

    /// Whether another buffer identity can still be minted; the guard for
    /// [`State::insert_buffer`]'s counter precondition.
    pub fn can_insert_buffer(&self) -> (r: bool)
        ensures
            r == (self.counter() < usize::MAX),
    {
        self.id_counter < usize::MAX
    }

    /// The registered buffer whose backing path is exactly `canonical`, if
    /// any: the reuse check behind "already open" deduplication. The caller
    /// canonicalizes the path first.
    pub fn find_by_path(&self, canonical: &str) -> (r: Option<BufferId>)
        requires
            self.wf(),
        ensures
            r matches Some(id) ==> self.spec_has(id) && (self.buf(id).spec_path() matches Some(p)
                && p@ == canonical@),
            r is None ==> forall|k: int|
                0 <= k < self.ids().len() ==> !(#[trigger] self.buf(
                    self.ids()[k],
                ).spec_path() matches Some(p) && p@ == canonical@),
    {
        let n = self.buffers.len();
        for i in 0..n
            invariant
                self.wf(),
                n == self.buffers@.len(),
                forall|k: int|
                    0 <= k < i ==> !(#[trigger] self.buffers@[k].buffer.spec_path() matches Some(
                        p,
                    ) && p@ == canonical@),
        {
            let hit = match self.buffers[i].buffer.path_ref() {
                Some(p) => crate::ui::str_eq(p.as_str(), canonical),
                None => false,
            };
            if hit {
                let id = self.buffers[i].id;
                proof {
                    assert(self.ids()[i as int] == id);
                    let j = self.slot_of(id);
                    assert(self.ids()[j] == id);
                    if j != i {
                        assert(self.buffers@[j].id == self.buffers@[i as int].id);
                        assert(false);
                    }
                    assert(self.buf(id) == self.buffers@[i as int].buffer);
                }
                return Some(id);
            }
        }
        proof {
            assert forall|k: int| 0 <= k < self.ids().len() implies !(#[trigger] self.buf(
                self.ids()[k],
            ).spec_path() matches Some(p) && p@ == canonical@) by {
                let q = self.ids()[k];
                assert(self.buffers@[k].id == q);
                let j = self.slot_of(q);
                assert(self.ids()[j] == q);
                if j != k {
                    assert(self.buffers@[j].id == self.buffers@[k].id);
                    assert(false);
                }
                assert(self.buf(q) == self.buffers@[k].buffer);
            }
        }
        None
    }

    /// The registry's buffer-identity counter.
    pub closed spec fn counter(self) -> int {
        self.id_counter as int
    }
}

impl State {
    /// Open a new handle on the buffer registered under `buffer_id`: a
    /// fresh cursor at the buffer's start, and one more viewer. `None`
    /// exactly when the buffer is unregistered or a counter is exhausted,
    /// and then nothing changes.
    pub fn new_handle(&mut self, buffer_id: BufferId) -> (r: Option<BufferHandle>)
        requires
            old(self).wf(),
        ensures
            final(self).wf(),
            final(self).recent_seq() == old(self).recent_seq(),
            r is None <==> !old(self).spec_has(buffer_id) || old(self).buf(buffer_id).counter()
                == usize::MAX || old(self).viewers_of(buffer_id) == usize::MAX,
            r is None ==> same_registry(*old(self), *final(self)),
            r matches Some(h) ==> {
                let b0 = old(self).buf(buffer_id);
                let b1 = final(self).buf(buffer_id);
                &&& h.buffer_id == buffer_id
                &&& others_unchanged(*old(self), *final(self), buffer_id)
                &&& final(self).spec_has(buffer_id)
                &&& !has_id(b0.cursors(), h.cursor_id)
                &&& h.cursor_id.0 == b0.counter() + 1
                &&& b1.cursors() == b0.cursors().push(
                    (h.cursor_id, Cursor { base: 0, pos: 0, preferred_x: None }),
                )
                &&& b1.counter() == b0.counter() + 1
                &&& b1.sview().lines == b0.sview().lines
                &&& b1.history_eq(b0)
                &&& b1.dirty() == b0.dirty()
                &&& b1.spec_path() == b0.spec_path()
                &&& b1.cfg() == b0.cfg()
                &&& final(self).viewers_of(buffer_id) == old(self).viewers_of(buffer_id) + 1
            },
    {
        let i = match self.find(buffer_id) {
            Some(i) => i,
            None => {
                return None;
            },
        };
        let mut slot = self.buffers.remove(i);
        proof {
            assert(slot == old(self).buffers@[i as int]);
            assert(old(self).buf(buffer_id) == slot.buffer);
            assert(old(self).viewers_of(buffer_id) == slot.viewers);
        }
        if !slot.buffer.can_add_cursor() || slot.viewers == usize::MAX {
            self.buffers.insert(i, slot);
            proof {
                assert(self.buffers@ =~= old(self).buffers@);
                assert(self.ids() =~= old(self).ids());
                assert(same_registry(*old(self), *self));
            }
            return None;
        }
        proof {
            crate::shared::lemma_wf_facts(slot.buffer);
        }
        let cid = slot.buffer.insert_cursor(Cursor::default());
        proof {
            crate::shared::lemma_admin_keep_facts(slot.buffer, old(self).buf(buffer_id));
        }
        slot.viewers = slot.viewers + 1;
        self.buffers.insert(i, slot);
        proof {
            assert(self.buffers@ =~= old(self).buffers@.update(
                i as int,
                self.buffers@[i as int],
            ));
            lemma_update_slot(*old(self), *self, i as int);
        }
        Some(BufferHandle { buffer_id, cursor_id: cid })
    }

    /// Open a second handle that starts from a copy of an existing
    /// handle's cursor, so a new split pane continues where the first one
    /// stood. `None` exactly when the handle is stale or a counter is
    /// exhausted, and then nothing changes.
    pub fn duplicate_handle(&mut self, handle: &BufferHandle) -> (r: Option<BufferHandle>)
        requires
            old(self).wf(),
        ensures
            final(self).wf(),
            final(self).recent_seq() == old(self).recent_seq(),
            r is None <==> !old(self).spec_has(handle.buffer_id) || !has_id(
                old(self).buf(handle.buffer_id).cursors(),
                handle.cursor_id,
            ) || old(self).buf(handle.buffer_id).counter() == usize::MAX || old(self).viewers_of(
                handle.buffer_id,
            ) == usize::MAX,
            r is None ==> same_registry(*old(self), *final(self)),
            r matches Some(h) ==> {
                let b0 = old(self).buf(handle.buffer_id);
                let b1 = final(self).buf(handle.buffer_id);
                &&& h.buffer_id == handle.buffer_id
                &&& h.cursor_id != handle.cursor_id
                &&& others_unchanged(*old(self), *final(self), handle.buffer_id)
                &&& final(self).spec_has(handle.buffer_id)
                &&& !has_id(b0.cursors(), h.cursor_id)
                &&& h.cursor_id.0 == b0.counter() + 1
                &&& b1.cursors() == b0.cursors().push(
                    (h.cursor_id, lookup(b0.cursors(), handle.cursor_id)->Some_0),
                )
                &&& b1.counter() == b0.counter() + 1
                &&& b1.sview().lines == b0.sview().lines
                &&& b1.history_eq(b0)
                &&& b1.dirty() == b0.dirty()
                &&& b1.spec_path() == b0.spec_path()
                &&& b1.cfg() == b0.cfg()
                &&& final(self).viewers_of(handle.buffer_id) == old(self).viewers_of(
                    handle.buffer_id,
                ) + 1
            },
    {
        let i = match self.find(handle.buffer_id) {
            Some(i) => i,
            None => {
                return None;
            },
        };
        let mut slot = self.buffers.remove(i);
        proof {
            assert(slot == old(self).buffers@[i as int]);
            assert(old(self).buf(handle.buffer_id) == slot.buffer);
            assert(old(self).viewers_of(handle.buffer_id) == slot.viewers);
        }
        if !slot.buffer.can_add_cursor() || slot.viewers == usize::MAX
            || !slot.buffer.has_cursor(handle.cursor_id) {
            self.buffers.insert(i, slot);
            proof {
                assert(self.buffers@ =~= old(self).buffers@);
                assert(self.ids() =~= old(self).ids());
                assert(same_registry(*old(self), *self));
            }
            return None;
        }
        let c = slot.buffer.cursor(handle.cursor_id);
        proof {
            crate::shared::lemma_wf_facts(slot.buffer);
        }
        let cid = slot.buffer.insert_cursor(c);
        proof {
            crate::shared::lemma_admin_keep_facts(
                slot.buffer,
                old(self).buf(handle.buffer_id),
            );
            if cid == handle.cursor_id {
                crate::shared::lemma_has_of_lookup(
                    old(self).buf(handle.buffer_id).cursors(),
                    handle.cursor_id,
                );
                assert(false);
            }
        }
        slot.viewers = slot.viewers + 1;
        self.buffers.insert(i, slot);
        proof {
            assert(self.buffers@ =~= old(self).buffers@.update(
                i as int,
                self.buffers@[i as int],
            ));
            lemma_update_slot(*old(self), *self, i as int);
        }
        Some(BufferHandle { buffer_id: handle.buffer_id, cursor_id: cid })
    }

    /// A view is closing: its cursor entry leaves the buffer and the viewer
    /// count drops by one. The buffer itself stays registered; on a stale
    /// handle nothing changes.
    pub fn drop_handle(&mut self, handle: BufferHandle)
        requires
            old(self).wf(),
        ensures
            final(self).wf(),
            final(self).recent_seq() == old(self).recent_seq(),
            !old(self).spec_has(handle.buffer_id) ==> same_registry(*old(self), *final(self)),
            old(self).spec_has(handle.buffer_id) ==> {
                let b0 = old(self).buf(handle.buffer_id);
                let b1 = final(self).buf(handle.buffer_id);
                &&& others_unchanged(*old(self), *final(self), handle.buffer_id)
                &&& final(self).spec_has(handle.buffer_id)
                &&& !has_id(b1.cursors(), handle.cursor_id)
                &&& (forall|q: CursorId|
                    q != handle.cursor_id ==> #[trigger] lookup(b1.cursors(), q) == lookup(
                        b0.cursors(),
                        q,
                    ))
                &&& b1.sview().lines == b0.sview().lines
                &&& b1.history_eq(b0)
                &&& b1.dirty() == b0.dirty()
                &&& b1.spec_path() == b0.spec_path()
                &&& b1.cfg() == b0.cfg()
                &&& b1.counter() == b0.counter()
                &&& final(self).viewers_of(handle.buffer_id) == if old(self).viewers_of(
                    handle.buffer_id,
                ) > 0 {
                    old(self).viewers_of(handle.buffer_id) - 1
                } else {
                    0int
                }
            },
    {
        let i = match self.find(handle.buffer_id) {
            Some(i) => i,
            None => {
                return;
            },
        };
        let mut slot = self.buffers.remove(i);
        proof {
            assert(slot == old(self).buffers@[i as int]);
            assert(old(self).buf(handle.buffer_id) == slot.buffer);
            assert(old(self).viewers_of(handle.buffer_id) == slot.viewers);
        }
        slot.buffer.remove_cursor(handle.cursor_id);
        proof {
            crate::shared::lemma_admin_keep_facts(
                slot.buffer,
                old(self).buf(handle.buffer_id),
            );
        }
        if slot.viewers > 0 {
            slot.viewers = slot.viewers - 1;
        }
        self.buffers.insert(i, slot);
        proof {
            assert(self.buffers@ =~= old(self).buffers@.update(
                i as int,
                self.buffers@[i as int],
            ));
            lemma_update_slot(*old(self), *self, i as int);
        }
    }

    /// Close the buffer registered under `id`: it leaves the registry —
    /// state, history and all — together with its entries in the recent
    /// list, but only once no real viewer is left (at most the registry's
    /// own bookkeeping handle). With more viewers, or for an unknown
    /// identity, nothing changes: closing is explicit, never collection.
    pub fn close_buffer(&mut self, id: BufferId)
        requires
            old(self).wf(),
        ensures
            final(self).wf(),
            old(self).spec_has(id) && old(self).viewers_of(id) <= 1 ==> {
                &&& !final(self).spec_has(id)
                &&& final(self).counter() == old(self).counter()
                &&& (forall|q: BufferId|
                    q != id ==> #[trigger] final(self).spec_has(q) == old(self).spec_has(q))
                &&& (forall|q: BufferId|
                    q != id && old(self).spec_has(q) ==> #[trigger] final(self).buf(q) == old(
                        self,
                    ).buf(q) && final(self).viewers_of(q) == old(self).viewers_of(q))
                &&& final(self).recent_seq() == keep_others(old(self).recent_seq(), id)
            },
            !(old(self).spec_has(id) && old(self).viewers_of(id) <= 1) ==> same_registry(
                *old(self),
                *final(self),
            ) && final(self).recent_seq() == old(self).recent_seq(),
    {
        let i = match self.find(id) {
            Some(i) => i,
            None => {
                return;
            },
        };
        proof {
            assert(old(self).buf(id) == self.buffers@[i as int].buffer);
            assert(old(self).viewers_of(id) == self.buffers@[i as int].viewers);
        }
        if self.buffers[i].viewers > 1 {
            return;
        }
        self.buffers.remove(i);
        let ghost mid = *self;
        proof {
            lemma_remove_slot(*old(self), mid, i as int);
            assert(forall|a: int, b: int|
                0 <= a < b < self.buffers@.len() ==> (#[trigger] self.buffers@[a]).id != (
                #[trigger] self.buffers@[b]).id);
        }
        let ghost rs = self.recent@;
        let mut kept: Vec<BufferHandle> = Vec::new();
        let n = self.recent.len();
        proof {
            assert(rs.take(0) =~= Seq::<BufferHandle>::empty());
        }
        for k in 0..n
            invariant
                n == rs.len(),
                rs == self.recent@,
                self.wf(),
                kept@ == keep_others(rs.take(k as int), id),
        {
            let ghost prefix = rs.take(k as int);
            proof {
                assert(rs.take(k + 1).drop_last() =~= prefix);
                assert(rs.take(k + 1).last() == rs[k as int]);
            }
            if self.recent[k].buffer_id != id {
                let h = self.recent[k];
                kept.push(h);
            }
        }
        proof {
            assert(rs.take(n as int) =~= rs);
        }
        self.recent = kept;
        proof {
            assert(self.buffers@ == mid.buffers@);
            assert(self.ids() =~= mid.ids());
            assert(!self.spec_has(id)) by {
                if self.spec_has(id) {
                    let j = self.slot_of(id);
                    assert(self.ids()[j] == id);
                    assert(mid.ids()[j] == id);
                    assert(mid.spec_has(id));
                }
            }
            assert forall|q: BufferId| q != id implies #[trigger] self.spec_has(q) == old(
                self,
            ).spec_has(q) by {
                if self.spec_has(q) {
                    let j = self.slot_of(q);
                    assert(self.ids()[j] == q);
                    assert(mid.ids()[j] == q);
                    assert(mid.spec_has(q));
                }
                if mid.spec_has(q) {
                    let j = mid.slot_of(q);
                    assert(mid.ids()[j] == q);
                    assert(self.ids()[j] == q);
                    assert(self.spec_has(q));
                }
            }
            assert forall|q: BufferId| q != id && old(self).spec_has(q) implies #[trigger] self
                .buf(q) == old(self).buf(q) && self.viewers_of(q) == old(self).viewers_of(
                q,
            ) by {
                assert(mid.buf(q) == old(self).buf(q) && mid.viewers_of(q) == old(
                    self,
                ).viewers_of(q));
                assert(self.slot_of(q) == mid.slot_of(q));
            }
        }
    }

    /// Mark `handle` as the most recently used view of its buffer: its
    /// buffer's older entries leave the list and the handle goes on top.
    /// The buffers themselves are untouched.
    pub fn set_recent_buffer(&mut self, handle: BufferHandle)
        requires
            old(self).wf(),
        ensures
            final(self).wf(),
            same_registry(*old(self), *final(self)),
            final(self).recent_seq() == keep_others(
                old(self).recent_seq(),
                handle.buffer_id,
            ).push(handle),
            final(self).recent_seq().len() > 0,
            final(self).recent_seq().last() == handle,
    {
        let ghost rs = self.recent@;
        let mut kept: Vec<BufferHandle> = Vec::new();
        let n = self.recent.len();
        proof {
            assert(rs.take(0) =~= Seq::<BufferHandle>::empty());
        }
        for k in 0..n
            invariant
                n == rs.len(),
                rs == self.recent@,
                self.wf(),
                kept@ == keep_others(rs.take(k as int), handle.buffer_id),
        {
            let ghost prefix = rs.take(k as int);
            proof {
                assert(rs.take(k + 1).drop_last() =~= prefix);
                assert(rs.take(k + 1).last() == rs[k as int]);
            }
            if self.recent[k].buffer_id != handle.buffer_id {
                let h = self.recent[k];
                kept.push(h);
            }
        }
        proof {
            assert(rs.take(n as int) =~= rs);
        }
        kept.push(handle);
        self.recent = kept;
        proof {
            assert(same_registry(*old(self), *self));
        }
    }

    /// The most-recently-used handles, newest first.
    pub fn recent_buffers(&self) -> (r: Vec<BufferHandle>)
        ensures
            r@.len() == self.recent_seq().len(),
            forall|k: int|
                0 <= k < r@.len() ==> #[trigger] r@[k] == self.recent_seq()[self.recent_seq().len()
                    - 1 - k],
    {
        let mut out: Vec<BufferHandle> = Vec::new();
        let n = self.recent.len();
        for k in 0..n
            invariant
                n == self.recent@.len(),
                out@.len() == k,
                forall|q: int|
                    0 <= q < k ==> #[trigger] out@[q] == self.recent@[n - 1 - q],
        {
            let h = self.recent[n - 1 - k];
            out.push(h);
        }
        out
    }

    /// Read access to the buffer registered under `id`.
    pub fn get_shared_buffer(&self, id: BufferId) -> (r: Option<&SharedBuffer>)
        requires
            self.wf(),
        ensures
            match r {
                Some(b) => self.spec_has(id) && *b == self.buf(id) && b.wf(),
                None => !self.spec_has(id),
            },
    {
        match self.find(id) {
            Some(i) => Some(&self.buffers[i].buffer),
            None => None,
        }
    }

    /// Route one editing command to the buffer and cursor a handle names.
    /// `None` exactly when the handle is stale or the buffer is too large
    /// to edit within machine bounds (see [`edit_guard`]), and then nothing
    /// changes; otherwise the named buffer changes exactly as
    /// [`SharedBuffer::handle`] says — see [`handle_post`] — and every
    /// other buffer stays as it was.
    pub fn handle_event(&mut self, handle: BufferHandle, event: Event, now: u64) -> (r: Option<
        Result<Option<String>, Event>,
    >)
        requires
            old(self).wf(),
        ensures
            final(self).wf(),
            final(self).recent_seq() == old(self).recent_seq(),
            r is None <==> !old(self).spec_has(handle.buffer_id) || !has_id(
                old(self).buf(handle.buffer_id).cursors(),
                handle.cursor_id,
            ) || !edit_guard(old(self).buf(handle.buffer_id), event),
            r is None ==> same_registry(*old(self), *final(self)),
            r matches Some(res) ==> {
                &&& others_unchanged(*old(self), *final(self), handle.buffer_id)
                &&& final(self).spec_has(handle.buffer_id)
                &&& final(self).buf(handle.buffer_id).wf()
                &&& handle_post(
                    old(self).buf(handle.buffer_id),
                    handle.cursor_id,
                    event,
                    now,
                    final(self).buf(handle.buffer_id),
                    res,
                )
                &&& final(self).viewers_of(handle.buffer_id) == old(self).viewers_of(
                    handle.buffer_id,
                )
            },
    {
        let ghost b0 = old(self).buf(handle.buffer_id);
        let i = match self.find(handle.buffer_id) {
            Some(i) => i,
            None => {
                return None;
            },
        };
        let mut slot = self.buffers.remove(i);
        proof {
            assert(slot == old(self).buffers@[i as int]);
            assert(b0 == slot.buffer);
            assert(old(self).viewers_of(handle.buffer_id) == slot.viewers);
        }
        if !slot.buffer.has_cursor(handle.cursor_id) {
            self.buffers.insert(i, slot);
            proof {
                assert(self.buffers@ =~= old(self).buffers@);
                assert(self.ids() =~= old(self).ids());
                assert(same_registry(*old(self), *self));
            }
            return None;
        }
        let tw = slot.buffer.config().tab_width;
        let len = slot.buffer.len();
        proof {
            crate::shared::lemma_wf_facts(slot.buffer);
            assert(slot.buffer.text().len() == len + 1);
        }
        let lt: u128 = (len as u128) + 1;
        let tww: u128 = (tw as u128) + 4;
        let mut ok_size = tw <= (isize::MAX as usize) && lt <= u128::MAX / tww;
        if ok_size {
            proof {
                assert(lt * tww <= u128::MAX) by (nonlinear_arith)
                    requires tww >= 1, lt <= u128::MAX / tww;
            }
            let prod = lt * tww;
            ok_size = prod <= (usize::MAX as u128) - tww;
        } else {
            proof {
                if tw <= (isize::MAX as usize) {
                    assert(lt > u128::MAX / tww);
                    assert(lt * tww > u128::MAX) by (nonlinear_arith)
                        requires tww >= 1, lt > u128::MAX / tww;
                    assert((len as int + 1) * (tw as int + 4) > usize::MAX) by (nonlinear_arith)
                        requires
                            lt == (len as u128) + 1,
                            tww == (tw as u128) + 4,
                            lt * tww > u128::MAX,
                            u128::MAX >= usize::MAX;
                }
            }
        }
        proof {
            if ok_size {
                assert((len as int + 1) * (tw as int + 4) + (tw as int) + 4 <= usize::MAX)
                    by (nonlinear_arith)
                    requires
                        lt == (len as u128) + 1,
                        tww == (tw as u128) + 4,
                        lt * tww <= (usize::MAX as u128) - tww,
                        tw >= 1,
                        len <= usize::MAX;
            } else {
                assert(!(b0.text().len() * (b0.cfg().tab_width as int + 4) + b0.cfg().tab_width
                    + 4 <= usize::MAX) || !(b0.cfg().tab_width <= isize::MAX as usize)) by {
                    if tw <= (isize::MAX as usize) {
                        assert((len as int + 1) * (tw as int + 4) + (tw as int) + 4
                            > usize::MAX) by (nonlinear_arith)
                            requires
                                lt == (len as u128) + 1,
                                tww == (tw as u128) + 4,
                                lt * tww > (usize::MAX as u128) - tww || lt * tww > u128::MAX,
                                tw >= 1;
                    }
                }
            }
        }
        let ok_paste = match &event {
            Event::Paste(sp) => sp.as_str().unicode_len() <= usize::MAX - 1 - len,
            _ => true,
        };
        proof {
            match &event {
                Event::Paste(sp) => {
                    assert(ok_paste == (b0.text().len() + sp@.len() <= usize::MAX));
                },
                _ => {},
            }
        }
        if !(ok_size && ok_paste) {
            self.buffers.insert(i, slot);
            proof {
                assert(self.buffers@ =~= old(self).buffers@);
                assert(self.ids() =~= old(self).ids());
                assert(same_registry(*old(self), *self));
                assert(!edit_guard(b0, event));
            }
            return None;
        }
        proof {
            assert(edit_guard(b0, event));
        }
        let out = slot.buffer.handle(handle.cursor_id, event, now);
        self.buffers.insert(i, slot);
        proof {
            assert(self.buffers@ =~= old(self).buffers@.update(
                i as int,
                self.buffers@[i as int],
            ));
            lemma_update_slot(*old(self), *self, i as int);
        }
        Some(out)
    }

    /// Record that the buffer registered under `id` has been written to
    /// disk at `canonical_path`: its dirty flag clears and its path takes
    /// the canonical form; everything else, and every other buffer, stays.
    pub fn mark_buffer_saved(&mut self, id: BufferId, canonical_path: Option<String>)
        requires
            old(self).wf(),
        ensures
            final(self).wf(),
            final(self).recent_seq() == old(self).recent_seq(),
            !old(self).spec_has(id) ==> same_registry(*old(self), *final(self)),
            old(self).spec_has(id) ==> {
                let b0 = old(self).buf(id);
                let b1 = final(self).buf(id);
                &&& others_unchanged(*old(self), *final(self), id)
                &&& final(self).spec_has(id)
                &&& !b1.dirty()
                &&& b1.spec_path() == canonical_path
                &&& b1.sview() == b0.sview()
                &&& b1.history_eq(b0)
                &&& b1.cfg() == b0.cfg()
                &&& final(self).viewers_of(id) == old(self).viewers_of(id)
            },
    {
        let i = match self.find(id) {
            Some(i) => i,
            None => {
                return;
            },
        };
        let mut slot = self.buffers.remove(i);
        proof {
            assert(slot == old(self).buffers@[i as int]);
            assert(old(self).buf(id) == slot.buffer);
            assert(old(self).viewers_of(id) == slot.viewers);
        }
        slot.buffer.mark_saved(canonical_path);
        self.buffers.insert(i, slot);
        proof {
            assert(self.buffers@ =~= old(self).buffers@.update(
                i as int,
                self.buffers@[i as int],
            ));
            lemma_update_slot(*old(self), *self, i as int);
        }
    }
}


/// Scroll state of a console view: the first visible line.
pub struct ConsoleView {
    pub line: usize,
}


/// Every registered buffer, its viewer count, the identity list and the
/// identity counter are unchanged.
pub open spec fn same_registry(pre: State, post: State) -> bool {
    &&& post.ids() == pre.ids()
    &&& post.counter() == pre.counter()
    &&& (forall|q: BufferId| #[trigger] post.spec_has(q) == pre.spec_has(q))
    &&& (forall|q: BufferId|
        pre.spec_has(q) ==> #[trigger] post.buf(q) == pre.buf(q) && post.viewers_of(q)
            == pre.viewers_of(q))
}

/// Every registered buffer other than `id` is unchanged, along with the
/// identity list and counter.
pub open spec fn others_unchanged(pre: State, post: State, id: BufferId) -> bool {
    &&& post.ids() == pre.ids()
    &&& post.counter() == pre.counter()
    &&& (forall|q: BufferId| q != id ==> #[trigger] post.spec_has(q) == pre.spec_has(q))
    &&& (forall|q: BufferId|
        q != id && pre.spec_has(q) ==> #[trigger] post.buf(q) == pre.buf(q)
            && post.viewers_of(q) == pre.viewers_of(q))
}

/// The recent list with every handle of one buffer taken out, order kept.
pub open spec fn keep_others(rs: Seq<BufferHandle>, id: BufferId) -> Seq<BufferHandle>
    decreases rs.len(),
{
    if rs.len() == 0 {
        Seq::empty()
    } else if rs.last().buffer_id == id {
        keep_others(rs.drop_last(), id)
    } else {
        keep_others(rs.drop_last(), id).push(rs.last())
    }
}

/// When only slot `i` changed in place (same identity, same count of
/// slots), every other buffer reads back unchanged and the changed one
/// reads back as the new slot.
proof fn lemma_update_slot(pre: State, post: State, i: int)
    requires
        pre.wf(),
        0 <= i < pre.buffers@.len(),
        post.buffers@.len() == pre.buffers@.len(),
        post.id_counter == pre.id_counter,
        post.buffers@[i].id == pre.buffers@[i].id,
        forall|k: int|
            0 <= k < pre.buffers@.len() && k != i ==> post.buffers@[k] == pre.buffers@[k],
    ensures
        post.ids() == pre.ids(),
        others_unchanged(pre, post, pre.buffers@[i].id),
        post.spec_has(pre.buffers@[i].id),
        pre.spec_has(pre.buffers@[i].id),
        post.slot_of(pre.buffers@[i].id) == i,
        pre.slot_of(pre.buffers@[i].id) == i,
        post.buf(pre.buffers@[i].id) == post.buffers@[i].buffer,
        post.viewers_of(pre.buffers@[i].id) == post.buffers@[i].viewers,
        pre.buf(pre.buffers@[i].id) == pre.buffers@[i].buffer,
        pre.viewers_of(pre.buffers@[i].id) == pre.buffers@[i].viewers,
{
    let id = pre.buffers@[i].id;
    assert(post.ids() =~= pre.ids());
    assert(pre.ids()[i] == id);
    assert(post.ids()[i] == id);
    assert(pre.spec_has(id));
    assert(post.spec_has(id));
    let jp = pre.slot_of(id);
    assert(pre.ids()[jp] == id);
    if jp != i {
        assert(pre.buffers@[jp].id == pre.buffers@[i].id);
        assert(false);
    }
    let jq = post.slot_of(id);
    assert(post.ids()[jq] == id);
    assert(pre.ids()[jq] == id);
    if jq != i {
        assert(false);
    }
    assert forall|q: BufferId| q != id implies #[trigger] post.spec_has(q) == pre.spec_has(
        q,
    ) by {
        if pre.spec_has(q) {
            let j = pre.slot_of(q);
            assert(pre.ids()[j] == q);
            assert(post.ids()[j] == q);
        }
        if post.spec_has(q) {
            let j = post.slot_of(q);
            assert(post.ids()[j] == q);
            assert(pre.ids()[j] == q);
        }
    }
    assert forall|q: BufferId| q != id && pre.spec_has(q) implies #[trigger] post.buf(q)
        == pre.buf(q) && post.viewers_of(q) == pre.viewers_of(q) by {
        let j = pre.slot_of(q);
        assert(pre.ids()[j] == q);
        assert(j != i);
        assert(post.ids()[j] == q);
        let j2 = post.slot_of(q);
        assert(post.ids()[j2] == q);
        assert(pre.ids()[j2] == q);
        if j2 != j {
            assert(pre.buffers@[j2].id == pre.buffers@[j].id);
            assert(false);
        }
        assert(post.buffers@[j] == pre.buffers@[j]);
    }
}

/// When slot `i` is removed, its buffer leaves the registry and every
/// other buffer reads back unchanged.
proof fn lemma_remove_slot(pre: State, post: State, i: int)
    requires
        pre.wf(),
        0 <= i < pre.buffers@.len(),
        post.buffers@ == pre.buffers@.remove(i),
        post.id_counter == pre.id_counter,
    ensures
        !post.spec_has(pre.buffers@[i].id),
        post.counter() == pre.counter(),
        forall|q: BufferId|
            q != pre.buffers@[i].id ==> #[trigger] post.spec_has(q) == pre.spec_has(q),
        forall|q: BufferId|
            q != pre.buffers@[i].id && pre.spec_has(q) ==> #[trigger] post.buf(q) == pre.buf(q)
                && post.viewers_of(q) == pre.viewers_of(q),
{
    let id = pre.buffers@[i].id;
    pre.buffers@.remove_ensures(i);
    if post.spec_has(id) {
        let j = post.slot_of(id);
        assert(post.ids()[j] == id);
        if j < i {
            assert(pre.buffers@[j].id == id);
            assert(false);
        } else {
            assert(pre.buffers@[j + 1].id == id);
            assert(false);
        }
    }
    assert forall|q: BufferId| q != id implies #[trigger] post.spec_has(q) == pre.spec_has(
        q,
    ) by {
        if pre.spec_has(q) {
            let j = pre.slot_of(q);
            assert(pre.ids()[j] == q);
            if j != i {
                if j < i {
                    assert(post.ids()[j] == q);
                } else {
                    assert(post.ids()[j - 1] == q);
                }
            }
        }
        if post.spec_has(q) {
            let j = post.slot_of(q);
            assert(post.ids()[j] == q);
            if j < i {
                assert(pre.ids()[j] == q);
            } else {
                assert(pre.ids()[j + 1] == q);
            }
        }
    }
    assert forall|q: BufferId| q != id && pre.spec_has(q) implies #[trigger] post.buf(q)
        == pre.buf(q) && post.viewers_of(q) == pre.viewers_of(q) by {
        let j = pre.slot_of(q);
        assert(pre.ids()[j] == q);
        assert(j != i);
        let j2 = if j < i {
            j
        } else {
            j - 1
        };
        assert(post.ids()[j2] == q);
        let jq = post.slot_of(q);
        assert(post.ids()[jq] == q);
        if jq != j2 {
            let back = if jq < i {
                jq
            } else {
                jq + 1
            };
            assert(pre.buffers@[back].id == q);
            assert(pre.ids()[back] == q);
            assert(false);
        }
        assert(post.buffers@[j2] == pre.buffers@[j]);
    }
}

} // verus!
