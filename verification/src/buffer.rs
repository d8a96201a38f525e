use vstd::prelude::*;
use std::rc::Rc;
use crate::paths::chars_to_string;

verus! {

/// A mutable in-memory text document, optionally bound to the stable file
/// identity it was read from.
#[derive(Clone, Debug)]
pub struct TextBuffer {
    pub contents: Vec<char>,
    pub file_id: Option<usize>,
}

impl TextBuffer {
    pub fn new() -> (r: Self)
        ensures
            r.contents@ =~= Seq::<char>::empty(),
            r.file_id is None,
    {
        TextBuffer { contents: Vec::new(), file_id: None }
    }

    /// Replaces the characters in `start..end` with the characters of
    /// `new_text`.
    pub fn edit(&mut self, start: usize, end: usize, new_text: &str)
        requires
            start <= end <= old(self).contents@.len(),
        ensures
            final(self).contents@ =~= old(self).contents@.take(start as int) + new_text@ + old(
                self,
            ).contents@.skip(end as int),
            final(self).file_id == old(self).file_id,
    {
        let mut updated: Vec<char> = Vec::new();
        let mut i: usize = 0;
        while i < start
            invariant
                i <= start,
                start <= old(self).contents@.len(),
                self == old(self),
                updated@ =~= old(self).contents@.take(i as int),
            decreases start - i,
        {
            updated.push(self.contents[i]);
            i += 1;
            proof {
                assert(old(self).contents@.take(i as int) =~= old(self).contents@.take(
                    i - 1 as int,
                ).push(old(self).contents@[i - 1]));
            }
        }
        let n = new_text.unicode_len();
        let mut j: usize = 0;
        while j < n
            invariant
                j <= n,
                n == new_text@.len(),
                start <= old(self).contents@.len(),
                self == old(self),
                updated@ =~= old(self).contents@.take(start as int) + new_text@.take(j as int),
            decreases n - j,
        {
            updated.push(new_text.get_char(j));
            j += 1;
            proof {
                assert(old(self).contents@.take(start as int) + new_text@.take(j as int) =~= (old(
                    self,
                ).contents@.take(start as int) + new_text@.take(j - 1 as int)).push(
                    new_text@[j - 1],
                ));
            }
        }
        let m = self.contents.len();
        let mut k: usize = end;
        while k < m
            invariant
                end <= k <= m,
                m == old(self).contents@.len(),
                start <= end <= m,
                n == new_text@.len(),
                self == old(self),
                updated@ =~= old(self).contents@.take(start as int) + new_text@ + old(
                    self,
                ).contents@.subrange(end as int, k as int),
            decreases m - k,
        {
            updated.push(self.contents[k]);
            k += 1;
            proof {
                assert(old(self).contents@.subrange(end as int, k as int) =~= old(
                    self,
                ).contents@.subrange(end as int, k - 1 as int).push(old(self).contents@[k - 1]));
                assert(updated@ =~= old(self).contents@.take(start as int) + new_text@ + old(
                    self,
                ).contents@.subrange(end as int, k as int));
            }
        }
        proof {
            assert(old(self).contents@.subrange(end as int, m as int) =~= old(
                self,
            ).contents@.skip(end as int));
            assert(new_text@.take(n as int) =~= new_text@);
            assert(old(self).contents@.take(start as int) + new_text@.take(n as int) =~= old(
                self,
            ).contents@.take(start as int) + new_text@);
        }
        self.contents = updated;
    }

    /// Binds this buffer to the file identity it was read from.
    pub fn set_file(&mut self, file_id: usize)
        ensures
            final(self).contents == old(self).contents,
            final(self).file_id == Some(file_id),
    {
        self.file_id = Some(file_id);
    }

    pub fn file_id(&self) -> (r: Option<usize>)
        ensures
            r == self.file_id,
    {
        self.file_id
    }

    /// The buffer's contents as a string.
    pub fn to_text(&self) -> (r: String)
        ensures
            r@ == self.contents@,
    {
        chars_to_string(&self.contents)
    }
}

/// A shared strong reference to a live text buffer. All holders see each
/// other's edits; the buffer is released when the last strong reference is
/// dropped.
pub struct SharedBuffer {
    cell: Rc<core::cell::RefCell<TextBuffer>>,
}

/// A weak back-reference to a shared buffer, as the registry keeps it.
///
/// The field is hidden from verification: `std::rc::Weak` cannot be declared
/// here because of its allocator type parameter.
#[verifier::external_body]
pub struct WeakBuffer {
    cell: std::rc::Weak<core::cell::RefCell<TextBuffer>>,
}

/// The sole strong reference to a freshly shared buffer.
pub fn share_buffer(buffer: TextBuffer) -> (r: SharedBuffer) {
    SharedBuffer { cell: Rc::new(core::cell::RefCell::new(buffer)) }
}

/// Relies on `RefCell::borrow` and `TextBuffer::clone` (derived): reads the
/// current buffer state without changing it.
#[verifier::external_body]
fn buffer_snapshot(b: &SharedBuffer) -> TextBuffer {
    b.cell.borrow().clone()
}

/// Relies on `RefCell::replace`: stores `t` as the new buffer state and
/// returns the previous one.
#[verifier::external_body]
fn buffer_replace(b: &SharedBuffer, t: TextBuffer) -> TextBuffer {
    b.cell.replace(t)
}

/// Relies on `Rc::downgrade`: the weak reference does not keep the buffer
/// alive.
#[verifier::external_body]
fn buffer_downgrade(b: &SharedBuffer) -> WeakBuffer {
    WeakBuffer { cell: Rc::downgrade(&b.cell) }
}

/// Relies on `std::rc::Weak::upgrade`: yields a strong reference exactly when
/// at least one other strong reference is still alive.
#[verifier::external_body]
fn buffer_upgrade(w: &WeakBuffer) -> Option<SharedBuffer> {
    w.cell.upgrade().map(|cell| SharedBuffer { cell })
}

/// Relies on `std::rc::Weak::clone`: the copy points at the same buffer.
#[verifier::external_body]
fn weak_clone(w: &WeakBuffer) -> WeakBuffer {
    WeakBuffer { cell: w.cell.clone() }
}

/// Whether two strong references identify the same underlying buffer.
///
/// Relies on `Rc::ptr_eq`: compares allocation identity, not contents.
#[verifier::external_body]
pub fn buffer_ptr_eq(a: &SharedBuffer, b: &SharedBuffer) -> bool {
    Rc::ptr_eq(&a.cell, &b.cell)
}

impl SharedBuffer {
    /// The current contents, rendered as a string.
    pub fn text(&self) -> String {
        buffer_snapshot(self).to_text()
    }

    /// The file identity the buffer is bound to, if any.
    pub fn file_id(&self) -> Option<usize> {
        buffer_snapshot(self).file_id()
    }

    /// Replaces the characters in `start..end` with `new_text`, as visible to
    /// every holder of this buffer. Reports whether the range was valid.
    pub fn edit(&self, start: usize, end: usize, new_text: &str) -> bool {
        let mut state = buffer_snapshot(self);
        if start <= end && end <= state.contents.len() {
            state.edit(start, end, new_text);
            let _ = buffer_replace(self, state);
            true
        } else {
            false
        }
    }
}

/// The buffer id of each registry slot, in order.
pub open spec fn slot_ids(slots: Seq<BufferSlot>) -> Seq<int> {
    Seq::new(slots.len(), |i: int| slots[i].id as int)
}

/// `a` occurs within `b` as a subsequence: same relative order and
/// multiplicity, possibly with elements of `b` left out.
pub open spec fn id_subsequence(a: Seq<int>, b: Seq<int>) -> bool
    decreases b.len(),
{
    if a.len() == 0 {
        true
    } else if b.len() == 0 {
        false
    } else {
        (a[0] == b[0] && id_subsequence(a.skip(1), b.skip(1))) || id_subsequence(a, b.skip(1))
    }
}

/// Extending the larger sequence preserves a subsequence.
pub proof fn lemma_id_subsequence_extend(a: Seq<int>, b: Seq<int>, x: int)
    requires
        id_subsequence(a, b),
    ensures
        id_subsequence(a, b.push(x)),
    decreases b.len(),
{
    if a.len() == 0 {
    } else {
        assert(b.len() > 0);
        assert(b.push(x)[0] == b[0]);
        assert(b.push(x).skip(1) =~= b.skip(1).push(x));
        if a[0] == b[0] && id_subsequence(a.skip(1), b.skip(1)) {
            lemma_id_subsequence_extend(a.skip(1), b.skip(1), x);
        } else {
            lemma_id_subsequence_extend(a, b.skip(1), x);
        }
    }
}

/// Appending the same element to both sides preserves a subsequence.
pub proof fn lemma_id_subsequence_push(a: Seq<int>, b: Seq<int>, x: int)
    requires
        id_subsequence(a, b),
    ensures
        id_subsequence(a.push(x), b.push(x)),
    decreases b.len(),
{
    if a.len() == 0 {
        lemma_id_subsequence_single(b, x);
        assert(a.push(x) =~= seq![x]);
    } else {
        assert(b.len() > 0);
        assert(a.push(x)[0] == a[0]);
        assert(b.push(x)[0] == b[0]);
        assert(a.push(x).skip(1) =~= a.skip(1).push(x));
        assert(b.push(x).skip(1) =~= b.skip(1).push(x));
        if a[0] == b[0] && id_subsequence(a.skip(1), b.skip(1)) {
            lemma_id_subsequence_push(a.skip(1), b.skip(1), x);
            assert(id_subsequence(a.push(x).skip(1), b.push(x).skip(1)));
            assert(id_subsequence(a.push(x), b.push(x)));
        } else {
            lemma_id_subsequence_push(a, b.skip(1), x);
            assert(id_subsequence(a.push(x), b.push(x).skip(1)));
            assert(id_subsequence(a.push(x), b.push(x)));
        }
    }
}

/// Every sequence is a subsequence of itself.
pub proof fn lemma_id_subsequence_refl(a: Seq<int>)
    ensures
        id_subsequence(a, a),
    decreases a.len(),
{
    if a.len() > 0 {
        lemma_id_subsequence_refl(a.skip(1));
    }
}

/// The subsequence relation is transitive.
pub proof fn lemma_id_subsequence_trans(a: Seq<int>, b: Seq<int>, c: Seq<int>)
    requires
        id_subsequence(a, b),
        id_subsequence(b, c),
    ensures
        id_subsequence(a, c),
    decreases c.len(),
{
    if a.len() == 0 {
    } else {
        assert(b.len() > 0);
        assert(c.len() > 0);
        if b[0] == c[0] && id_subsequence(b.skip(1), c.skip(1)) {
            if a[0] == b[0] && id_subsequence(a.skip(1), b.skip(1)) {
                lemma_id_subsequence_trans(a.skip(1), b.skip(1), c.skip(1));
                assert(id_subsequence(a, c));
            } else {
                lemma_id_subsequence_trans(a, b.skip(1), c.skip(1));
                assert(id_subsequence(a, c));
            }
        } else {
            lemma_id_subsequence_trans(a, b, c.skip(1));
            assert(id_subsequence(a, c));
        }
    }
}

proof fn lemma_id_subsequence_single(b: Seq<int>, x: int)
    ensures
        id_subsequence(seq![x], b.push(x)),
    decreases b.len(),
{
    let a = seq![x];
    let out = b.push(x);
    if b.len() == 0 {
        assert(out =~= seq![x]);
        assert(a.skip(1).len() == 0);
        assert(id_subsequence(a.skip(1), out.skip(1)));
        assert(a[0] == out[0]);
        assert(id_subsequence(a, out));
    } else {
        assert(out[0] == b[0]);
        assert(out.skip(1) =~= b.skip(1).push(x));
        lemma_id_subsequence_single(b.skip(1), x);
        assert(id_subsequence(a, out.skip(1)));
        assert(id_subsequence(a, out));
    }
}

pub struct BufferSlot {
    pub id: usize,
    pub weak: WeakBuffer,
}

/// The weakly-held registry from buffer id (and, through the buffers
/// themselves, file identity) to outstanding buffers. A sequence rather than
/// a map: lookups are rare, linear, and every probe also evicts slots whose
/// buffer has been dropped.
pub struct BufferWeakSet {
    pub buffers: Vec<BufferSlot>,
}

impl BufferWeakSet {
    pub fn new() -> (r: Self)
        ensures
            slot_ids(r.buffers@) =~= Seq::<int>::empty(),
    {
        BufferWeakSet { buffers: Vec::new() }
    }

    /// Takes ownership of a newly constructed buffer, stores a weak
    /// back-reference under `id`, and returns the sole strong reference.
    /// Exactly one slot is appended; the prior slots are untouched.
    pub fn insert(&mut self, id: usize, buffer: TextBuffer) -> (r: SharedBuffer)
        ensures
            slot_ids(final(self).buffers@) =~= slot_ids(old(self).buffers@).push(id as int),
            (exists|w: WeakBuffer|
                final(self).buffers@ == old(self).buffers@.push(BufferSlot { id, weak: w })),
    {
        let shared = share_buffer(buffer);
        let weak = buffer_downgrade(&shared);
        let ghost w = weak;
        self.buffers.push(BufferSlot { id, weak });
        proof {
            assert(slot_ids(self.buffers@) =~= slot_ids(old(self).buffers@).push(id as int));
            assert(self.buffers@ == old(self).buffers@.push(BufferSlot { id, weak: w }));
        }
        shared
    }

    /// A strong reference to the live buffer registered under `target_id`, if
    /// any; evicts every slot whose buffer is no longer alive. The surviving
    /// slots keep their relative order and multiplicity: their ids are a
    /// subsequence of the old ids.
    pub fn find_by_buffer_id(&mut self, target_id: usize) -> (r: Option<SharedBuffer>)
        ensures
            r is Some ==> slot_ids(old(self).buffers@).contains(target_id as int),
            old(self).buffers@.len() == 0 ==> r is None,
            id_subsequence(slot_ids(final(self).buffers@), slot_ids(old(self).buffers@)),
            forall|x: int|
                slot_ids(final(self).buffers@).contains(x) ==> slot_ids(
                    old(self).buffers@,
                ).contains(x),
    {
        let mut kept: Vec<BufferSlot> = Vec::new();
        let mut found: Option<SharedBuffer> = None;
        let n = self.buffers.len();
        let mut i: usize = 0;
        while i < n
            invariant
                i <= n,
                n == self.buffers@.len(),
                self == old(self),
                found is Some ==> slot_ids(self.buffers@).contains(target_id as int),
                i == 0 ==> found is None,
                id_subsequence(slot_ids(kept@), slot_ids(self.buffers@.take(i as int))),
                forall|x: int|
                    slot_ids(kept@).contains(x) ==> slot_ids(self.buffers@).contains(x),
            decreases n - i,
        {
            let slot = &self.buffers[i];
            match buffer_upgrade(&slot.weak) {
                Some(live) => {
                    if slot.id == target_id {
                        proof {
                            assert(slot_ids(self.buffers@)[i as int] == target_id as int);
                        }
                        found = Some(live);
                    }
                    let ghost prev_kept = kept@;
                    kept.push(BufferSlot { id: slot.id, weak: weak_clone(&slot.weak) });
                    proof {
                        assert(slot_ids(kept@) =~= slot_ids(prev_kept).push(slot.id as int));
                        assert(slot_ids(self.buffers@)[i as int] == slot.id as int);
                        lemma_id_subsequence_push(
                            slot_ids(prev_kept),
                            slot_ids(self.buffers@.take(i as int)),
                            slot.id as int,
                        );
                        assert forall|x: int| slot_ids(kept@).contains(x) implies slot_ids(
                            self.buffers@,
                        ).contains(x) by {
                            if x != slot.id as int {
                                assert(slot_ids(prev_kept).contains(x));
                            }
                        }
                    }
                },
                None => {
                    proof {
                        lemma_id_subsequence_extend(
                            slot_ids(kept@),
                            slot_ids(self.buffers@.take(i as int)),
                            slot_ids(self.buffers@)[i as int],
                        );
                    }
                },
            }
            proof {
                let all = slot_ids(self.buffers@);
                assert(slot_ids(self.buffers@.take(i + 1 as int)) =~= slot_ids(
                    self.buffers@.take(i as int),
                ).push(all[i as int]));
            }
            i += 1;
        }
        proof {
            assert(self.buffers@.take(n as int) =~= self.buffers@);
        }
        self.buffers = kept;
        found
    }

    /// A strong reference to the live buffer bound to `file_id`, if any; same
    /// eviction side effect as `find_by_buffer_id`: the surviving slots' ids
    /// are a subsequence of the old ids.
    pub fn find_by_file_id(&mut self, file_id: usize) -> (r: Option<SharedBuffer>)
        ensures
            old(self).buffers@.len() == 0 ==> r is None,
            id_subsequence(slot_ids(final(self).buffers@), slot_ids(old(self).buffers@)),
            forall|x: int|
                slot_ids(final(self).buffers@).contains(x) ==> slot_ids(
                    old(self).buffers@,
                ).contains(x),
    {
        let mut kept: Vec<BufferSlot> = Vec::new();
        let mut found: Option<SharedBuffer> = None;
        let n = self.buffers.len();
        let mut i: usize = 0;
        while i < n
            invariant
                i <= n,
                n == self.buffers@.len(),
                self == old(self),
                id_subsequence(slot_ids(kept@), slot_ids(self.buffers@.take(i as int))),
                forall|x: int|
                    slot_ids(kept@).contains(x) ==> slot_ids(self.buffers@).contains(x),
                i == 0 ==> found is None,
            decreases n - i,
        {
            let slot = &self.buffers[i];
            match buffer_upgrade(&slot.weak) {
                Some(live) => {
                    let matches_file = match live.file_id() {
                        Some(id) => id == file_id,
                        None => false,
                    };
                    if matches_file {
                        found = Some(live);
                    }
                    let ghost prev_kept = kept@;
                    kept.push(BufferSlot { id: slot.id, weak: weak_clone(&slot.weak) });
                    proof {
                        assert(slot_ids(kept@) =~= slot_ids(prev_kept).push(slot.id as int));
                        assert(slot_ids(self.buffers@)[i as int] == slot.id as int);
                        lemma_id_subsequence_push(
                            slot_ids(prev_kept),
                            slot_ids(self.buffers@.take(i as int)),
                            slot.id as int,
                        );
                        assert forall|x: int| slot_ids(kept@).contains(x) implies slot_ids(
                            self.buffers@,
                        ).contains(x) by {
                            if x != slot.id as int {
                                assert(slot_ids(prev_kept).contains(x));
                            }
                        }
                    }
                },
                None => {
                    proof {
                        lemma_id_subsequence_extend(
                            slot_ids(kept@),
                            slot_ids(self.buffers@.take(i as int)),
                            slot_ids(self.buffers@)[i as int],
                        );
                    }
                },
            }
            proof {
                let all = slot_ids(self.buffers@);
                assert(slot_ids(self.buffers@.take(i + 1 as int)) =~= slot_ids(
                    self.buffers@.take(i as int),
                ).push(all[i as int]));
            }
            i += 1;
        }
        proof {
            assert(self.buffers@.take(n as int) =~= self.buffers@);
        }
        self.buffers = kept;
        found
    }
}

} // verus!
