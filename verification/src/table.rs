//! The unique table: every distinct value is stored once, addressed by a
//! handle, and kept for as long as its reference count says it is in use.

use vstd::prelude::*;
use crate::chains::{
    Rep,
    Slot,
    absent,
    chain_ok,
    entries_of,
    entry_at,
    indexed_at,
    inserted,
    lemma_free_slot,
    lemma_head,
    lemma_insert,
    lemma_live_positive,
    lemma_node,
    lemma_not_in_chain,
    lemma_position,
    lemma_recount,
    lemma_relink_done,
    lemma_relink_skip,
    lemma_relink_start,
    lemma_relink_step,
    lemma_rep_basics,
    lemma_same_entries_pinned,
    lemma_unique,
    lemma_unlink,
    link_to,
    live_at,
    pinned_ok,
    relinking,
    rep_ok,
    same_but,
    same_entries,
};
use crate::error::Error;
use crate::hashing::{bucket_index, bucket_of, lemma_first_buckets};
use crate::value::{complex_product, complex_sum, ComplexParts, ComplexValue};

verus! {

/// Number of buckets of a new table.
pub const INITIAL_BUCKETS: usize = 8;

/// An identifier of an entry of the table. A handle stays valid across
/// growth of the table, and is never valid again once its entry is reclaimed.
#[derive(Clone, Copy, Debug, PartialEq, Eq, Structural, Hash)]
pub struct Handle {
    pub(crate) slot: usize,
    pub(crate) generation: u64,
}

/// The mathematical content of an entry.
pub struct EntryView {
    pub value: ComplexParts,
    pub count: nat,
    pub pinned: bool,
}

/// A stored value with its reference count. `next` links the entry to the next
/// one of its bucket's collision chain.
#[derive(Clone, Copy, Debug)]
pub struct Entry {
    pub(crate) value: ComplexValue,
    pub(crate) ref_count: usize,
    pub(crate) next: Option<usize>,
    pub(crate) pinned: bool,
}

impl View for Entry {
    type V = EntryView;

    closed spec fn view(&self) -> EntryView {
        EntryView { value: self.value@, count: self.ref_count as nat, pinned: self.pinned }
    }
}

/// The content of an entry, part by part.
pub(crate) proof fn lemma_entry_view(e: Entry)
    ensures
        e@ == (EntryView { value: e.value@, count: e.ref_count as nat, pinned: e.pinned }),
{
}

impl Entry {
    /// The slot of the entry that follows in the collision chain, if one does.
    pub closed spec fn link(&self) -> Option<usize> {
        self.next
    }

    /// The slot of the entry that follows in the collision chain, if one does.
    pub fn next_slot(&self) -> (r: Option<usize>)
        ensures
            r == self.link(),
    {
        self.next
    }

    /// The stored value.
    pub fn value(&self) -> (v: ComplexValue)
        ensures
            v@ == self@.value,
    {
        self.value
    }

    /// The number of references held on the entry.
    pub fn ref_count(&self) -> (n: usize)
        ensures
            n == self@.count,
    {
        self.ref_count
    }

    /// Whether the entry is exempt from reclamation.
    pub fn is_pinned(&self) -> (b: bool)
        ensures
            b == self@.pinned,
    {
        self.pinned
    }
}

/// The table of values.
pub struct ComplexTable {
    /// The storage cells. A handle names a cell and the generation of the entry
    /// in it.
    slots: Vec<Slot>,
    /// For each bucket, the slot of the first entry of its collision chain.
    heads: Vec<Option<usize>>,
    /// The empty slots that can be filled again.
    free: Vec<usize>,
    /// The number of entries.
    live: usize,
    /// For each bucket, the slots of its chain in the order of the links.
    chains: Ghost<Seq<Seq<int>>>,
    /// The handles of the entries that were reclaimed.
    retired: Ghost<Set<Handle>>,
}

/// The count after one more reference: it stops at `usize::MAX`, where the
/// entry stays for good.
pub open spec fn bump(count: nat) -> nat {
    if count < usize::MAX {
        count + 1
    } else {
        count
    }
}

/// The number of buckets after an insertion that brought the number of entries
/// to `live`: doubled where more than three quarters of the buckets would be
/// taken, as long as the doubled number is a `usize`.
pub open spec fn grown(buckets: nat, live: nat) -> nat {
    if live * 4 > buckets * 3 && buckets * 2 <= usize::MAX {
        buckets * 2
    } else {
        buckets
    }
}

/// The count after one reference less: a count that has reached `usize::MAX`
/// stays there.
pub open spec fn lowered(count: nat) -> nat {
    if 0 < count < usize::MAX {
        (count - 1) as nat
    } else {
        count
    }
}

/// The entry `e` with another count.
pub open spec fn with_count(e: EntryView, count: nat) -> EntryView {
    EntryView { value: e.value, count, pinned: e.pinned }
}

/// The handle `h` designates the entry that holds `v`.
pub open spec fn holds(m: Map<Handle, EntryView>, v: ComplexParts, h: Handle) -> bool {
    m.contains_key(h) && m[h].value == v
}

/// Some entry holds `v`.
pub open spec fn stored(m: Map<Handle, EntryView>, v: ComplexParts) -> bool {
    exists|h: Handle| holds(m, v, h)
}

/// What `lookup_or_insert` does to the entries `pre` for the value `v`: the
/// entry that holds `v` gets one more reference, or, where there is none, a new
/// entry with one reference is added under a handle that was not in use.
pub open spec fn lookup_or_insert_post(
    pre: Map<Handle, EntryView>,
    v: ComplexParts,
    post: Map<Handle, EntryView>,
    h: Handle,
) -> bool {
    if stored(pre, v) {
        &&& holds(pre, v, h)
        &&& post == pre.insert(h, with_count(pre[h], bump(pre[h].count)))
    } else {
        &&& !pre.contains_key(h)
        &&& post == pre.insert(h, EntryView { value: v, count: 1, pinned: false })
    }
}

/// What `retain` does: a live entry gets one more reference; a handle that
/// designates none is refused.
pub open spec fn retain_post(
    pre: Map<Handle, EntryView>,
    h: Handle,
    post: Map<Handle, EntryView>,
    r: Result<(), Error>,
) -> bool {
    if pre.contains_key(h) {
        &&& r is Ok
        &&& post == pre.insert(h, with_count(pre[h], bump(pre[h].count)))
    } else {
        &&& r == Err::<(), Error>(Error::DanglingHandle)
        &&& post == pre
    }
}

/// What `release` does: a handle without an entry or with a count of zero is
/// refused and nothing changes; the last reference of an unpinned entry removes
/// the entry; any other reference is taken off the count.
pub open spec fn release_post(
    pre: Map<Handle, EntryView>,
    h: Handle,
    post: Map<Handle, EntryView>,
    r: Result<(), Error>,
) -> bool {
    if !pre.contains_key(h) || pre[h].count == 0 {
        &&& r == Err::<(), Error>(Error::DoubleRelease)
        &&& post == pre
    } else if pre[h].count == 1 && !pre[h].pinned {
        &&& r is Ok
        &&& post == pre.remove(h)
    } else {
        &&& r is Ok
        &&& post == pre.insert(h, with_count(pre[h], lowered(pre[h].count)))
    }
}

/// The arithmetic that `combine` applies to two stored values.
#[derive(Clone, Copy, Debug, PartialEq, Eq, Structural)]
pub enum Operation {
    /// The sum of the two values.
    Add,
    /// The product of the two values.
    Multiply,
}

/// The outcome of an operation on two values, where it can be stored.
pub open spec fn operation_result(op: Operation, x: ComplexParts, y: ComplexParts) -> Option<
    ComplexParts,
> {
    match op {
        Operation::Add => complex_sum(x, y),
        Operation::Multiply => complex_product(x, y),
    }
}

/// What `combine` does: where one of the handles designates no entry it answers
/// `DanglingHandle`, where the outcome of the operation cannot be stored it
/// answers `UnrepresentableRadicand`, and in both cases nothing changes;
/// otherwise it looks the outcome up or inserts it.
pub open spec fn combine_post(
    pre: Map<Handle, EntryView>,
    op: Operation,
    a: Handle,
    b: Handle,
    post: Map<Handle, EntryView>,
    r: Result<Handle, Error>,
) -> bool {
    if !pre.contains_key(a) || !pre.contains_key(b) {
        &&& r == Err::<Handle, Error>(Error::DanglingHandle)
        &&& post == pre
    } else {
        match operation_result(op, pre[a].value, pre[b].value) {
            None => r == Err::<Handle, Error>(Error::UnrepresentableRadicand) && post == pre,
            Some(v) => r matches Ok(h) && lookup_or_insert_post(pre, v, post, h),
        }
    }
}

/// `combine` adds an entry: both handles designate entries, and the outcome of
/// the operation can be stored and is not yet in the table.
pub open spec fn inserts(m: Map<Handle, EntryView>, op: Operation, a: Handle, b: Handle) -> bool {
    &&& m.contains_key(a)
    &&& m.contains_key(b)
    &&& operation_result(op, m[a].value, m[b].value) matches Some(v)
    &&& !stored(m, v)
}

impl ComplexTable {
    /// The state of the table.
    closed spec fn rep(&self) -> Rep {
        Rep {
            slots: self.slots@,
            heads: self.heads@,
            free: self.free@,
            chains: self.chains@,
            live: self.live as int,
            retired: self.retired@,
        }
    }

    /// The table is consistent: its chains hold every entry once, no value is
    /// stored twice, and the three pinned values are resident.
    pub closed spec fn wf(&self) -> bool {
        rep_ok(self.rep()) && pinned_ok(self.slots@)
    }

    /// The handle of the pinned value `0`.
    pub closed spec fn zero_id() -> Handle {
        Handle { slot: 0, generation: 0 }
    }

    /// The handle of the pinned value `1`.
    pub closed spec fn one_id() -> Handle {
        Handle { slot: 1, generation: 0 }
    }

    /// The handle of the pinned value `1/√2`.
    pub closed spec fn inv_sqrt2_id() -> Handle {
        Handle { slot: 2, generation: 0 }
    }

    /// The number of buckets.
    pub closed spec fn buckets(&self) -> nat {
        self.heads@.len()
    }

    /// The entry that the slot of the handle `h` holds.
    pub closed spec fn entry_of(&self, h: Handle) -> Entry {
        entry_at(self.slots@, h.slot as int)
    }

    /// The handles whose entries were reclaimed. None of them designates an
    /// entry, now or later.
    pub closed spec fn retired(&self) -> Set<Handle> {
        self.retired@
    }

    /// Puts a value that the table does not hold into an empty slot, at the
    /// front of its bucket's chain.
    fn insert_fresh(&mut self, value: ComplexValue, count: usize, pinned: bool) -> (h: Handle)
        requires
            rep_ok(old(self).rep()),
            value.wf(),
            absent(old(self).slots@, value@),
        ensures
            rep_ok(final(self).rep()),
            !old(self)@.contains_key(h),
            final(self)@ == old(self)@.insert(
                h,
                EntryView { value: value@, count: count as nat, pinned },
            ),
            final(self).heads@.len() == old(self).heads@.len(),
            final(self).heads@ == old(self).heads@.update(
                bucket_of(value@, old(self).heads@.len() as int),
                Some(h.slot),
            ),
            entry_at(final(self).slots@, h.slot as int).next == old(self).heads@[bucket_of(
                value@,
                old(self).heads@.len() as int,
            )],
            final(self).live == old(self).live + 1,
            final(self).retired@ == old(self).retired@,
            same_but(old(self).slots@, final(self).slots@, h.slot as int),
            !live_at(old(self).slots@, h.slot as int),
            live_at(final(self).slots@, h.slot as int),
            final(self).slots@[h.slot as int].generation == h.generation,
            entry_at(final(self).slots@, h.slot as int)@ == (EntryView {
                value: value@,
                count: count as nat,
                pinned,
            }),
            old(self).free@.len() == 0 ==> h.slot == old(self).slots@.len() && h.generation == 0
                && final(self).slots@.len() == old(self).slots@.len() + 1 && final(self).free@.len()
                == 0,
            old(self).free@.len() > 0 ==> final(self).slots@.len() == old(self).slots@.len(),
    {
        proof {
            lemma_rep_basics(self.rep());
        }
        let b = bucket_index(&value, self.heads.len());
        let entry = Entry { value, ref_count: count, next: self.heads[b], pinned };
        let s: usize;
        let generation: u64;
        match self.free.pop() {
            Some(f) => {
                proof {
                    lemma_free_slot(old(self).rep(), old(self).free@.len() - 1);
                }
                s = f;
                generation = self.slots[f].generation;
                self.slots.set(f, Slot { generation, entry: Some(entry) });
            },
            None => {
                s = self.slots.len();
                generation = 0;
                self.slots.push(Slot { generation, entry: Some(entry) });
            },
        }
        self.heads.set(b, Some(s));
        let h = Handle { slot: s, generation };
        proof {
            self.chains@ = self.chains@.update(
                b as int,
                seq![s as int] + self.chains@[b as int],
            );
        }
        assert(self.slots@.len() == self.slots.len());
        self.live = self.live + 1;
        proof {
            lemma_insert(old(self).rep(), self.rep(), s as int, b as int, entry, h);
        }
        h
    }

    /// A table that holds the three pinned values `0`, `1` and `1/√2`.
    pub fn new() -> (t: ComplexTable)
        ensures
            t.wf(),
            t@ == initial_entries(),
            t.buckets() == INITIAL_BUCKETS,
            t.retired() == Set::<Handle>::empty(),
            t.entry_of(Self::zero_id()).link() is None,
            t.entry_of(Self::one_id()).link() is None,
            t.entry_of(Self::inv_sqrt2_id()).link() is None,
    {
        let mut heads: Vec<Option<usize>> = Vec::new();
        while heads.len() < INITIAL_BUCKETS
            invariant
                heads@.len() <= INITIAL_BUCKETS,
                forall|b: int| 0 <= b < heads@.len() ==> heads@[b] == None::<usize>,
            decreases INITIAL_BUCKETS - heads@.len(),
        {
            heads.push(None);
        }
        let mut t = ComplexTable {
            slots: Vec::new(),
            heads,
            free: Vec::new(),
            live: 0,
            chains: Ghost(Seq::new(INITIAL_BUCKETS as nat, |b: int| Seq::<int>::empty())),
            retired: Ghost(Set::empty()),
        };
        proof {
            reveal(rep_ok);
            assert forall|b: int| 0 <= b < t.heads@.len() implies #[trigger] chain_ok(
                t.slots@,
                t.heads@,
                t.chains@,
                b,
            ) by {}
            assert forall|s: int| #[trigger] indexed_at(t.slots@, t.chains@, s) by {}
            assert(t@ =~= Map::<Handle, EntryView>::empty());
        }
        proof {
            lemma_first_buckets();
        }
        t.insert_fresh(ComplexValue::zero(), 0, true);
        t.insert_fresh(ComplexValue::one(), 0, true);
        t.insert_fresh(ComplexValue::inv_sqrt2(), 0, true);
        t
    }

    /// The number of entries.
    pub fn len(&self) -> (n: usize)
        requires
            self.wf(),
        ensures
            n == self@.dom().len(),
    {
        proof {
            lemma_rep_basics(self.rep());
        }
        self.live
    }

    /// The number of buckets.
    pub fn bucket_count(&self) -> (n: usize)
        ensures
            n == self.buckets(),
    {
        self.heads.len()
    }

    /// The handle of the pinned value `0`.
    pub fn zero_handle(&self) -> (h: Handle)
        ensures
            h == Self::zero_id(),
    {
        Handle { slot: 0, generation: 0 }
    }

    /// The handle of the pinned value `1`.
    pub fn one_handle(&self) -> (h: Handle)
        ensures
            h == Self::one_id(),
    {
        Handle { slot: 1, generation: 0 }
    }

    /// The handle of the pinned value `1/√2`.
    pub fn inv_sqrt2_handle(&self) -> (h: Handle)
        ensures
            h == Self::inv_sqrt2_id(),
    {
        Handle { slot: 2, generation: 0 }
    }

    /// Whether the handle designates a live entry.
    pub fn is_live(&self, h: Handle) -> (b: bool)
        ensures
            b == self@.contains_key(h),
    {
        h.slot < self.slots.len() && self.slots[h.slot].generation == h.generation
            && self.slots[h.slot].entry.is_some()
    }

    /// The entry that the handle designates, if it designates one.
    pub fn entry(&self, h: Handle) -> (r: Option<Entry>)
        ensures
            match r {
                Some(e) => self@.contains_key(h) && e@ == self@[h] && e == self.entry_of(h),
                None => !self@.contains_key(h),
            },
    {
        if self.is_live(h) {
            self.slots[h.slot].entry
        } else {
            None
        }
    }

    /// The value that the handle designates, or `DanglingHandle` where it
    /// designates no live entry.
    pub fn resolve(&self, h: Handle) -> (r: Result<ComplexValue, Error>)
        ensures
            match r {
                Ok(v) => self@.contains_key(h) && v@ == self@[h].value,
                Err(e) => e == Error::DanglingHandle && !self@.contains_key(h),
            },
    {
        if self.is_live(h) {
            Ok(self.slots[h.slot].entry.unwrap().value)
        } else {
            Err(Error::DanglingHandle)
        }
    }

    /// The slot that holds `value`, found by walking the chain of its bucket.
    fn find(&self, value: &ComplexValue) -> (r: Option<usize>)
        requires
            rep_ok(self.rep()),
        ensures
            match r {
                Some(s) => live_at(self.slots@, s as int) && entry_at(self.slots@, s as int).value@
                    == value@,
                None => absent(self.slots@, value@),
            },
    {
        proof {
            lemma_rep_basics(self.rep());
        }
        let b = bucket_index(value, self.heads.len());
        proof {
            lemma_head(self.rep(), b as int);
        }
        let mut cur = self.heads[b];
        let ghost mut k: int = 0;
        loop
            invariant
                rep_ok(self.rep()),
                0 <= b < self.heads@.len(),
                self.chains@.len() == self.heads@.len(),
                b == bucket_of(value@, self.heads@.len() as int),
                0 <= k <= self.chains@[b as int].len(),
                cur == link_to(self.chains@[b as int], k),
                forall|j: int|
                    0 <= j < k ==> entry_at(self.slots@, #[trigger] self.chains@[b as int][j]).value@
                        != value@,
            decreases self.chains@[b as int].len() - k,
        {
            match cur {
                None => {
                    proof {
                        lemma_not_in_chain(self.rep(), value@, b as int);
                    }
                    return None;
                },
                Some(s) => {
                    proof {
                        lemma_node(self.rep(), b as int, k);
                    }
                    let e = self.slots[s].entry.unwrap();
                    if e.value.equals(value) {
                        return Some(s);
                    }
                    cur = e.next;
                    proof {
                        k = k + 1;
                    }
                },
            }
        }
    }

    /// Gives the entry of the live slot `s` the count `count`.
    fn set_count(&mut self, s: usize, count: usize)
        requires
            rep_ok(old(self).rep()),
            pinned_ok(old(self).slots@),
            live_at(old(self).slots@, s as int),
            count >= 1 || entry_at(old(self).slots@, s as int).pinned,
        ensures
            rep_ok(final(self).rep()),
            pinned_ok(final(self).slots@),
            final(self).heads@.len() == old(self).heads@.len(),
            final(self).retired@ == old(self).retired@,
            final(self)@ == old(self)@.insert(
                Handle { slot: s, generation: old(self).slots@[s as int].generation },
                with_count(entry_at(old(self).slots@, s as int)@, count as nat),
            ),
    {
        let slot = self.slots[s];
        let e = slot.entry.unwrap();
        let recounted_entry = Entry {
            value: e.value,
            ref_count: count,
            next: e.next,
            pinned: e.pinned,
        };
        self.slots.set(s, Slot { generation: slot.generation, entry: Some(recounted_entry) });
        proof {
            let h = Handle { slot: s, generation: slot.generation };
            lemma_recount(old(self).rep(), self.rep(), s as int, recounted_entry, h);
            assert forall|t: int| 3 <= t && #[trigger] live_at(self.slots@, t) implies !entry_at(
                self.slots@,
                t,
            ).pinned && entry_at(self.slots@, t).ref_count >= 1 by {
                assert(live_at(old(self).slots@, t));
            }
        }
    }

    /// Doubles the number of buckets and links every entry into its new chain.
    fn grow(&mut self)
        requires
            rep_ok(old(self).rep()),
            old(self).heads@.len() * 2 <= usize::MAX,
        ensures
            rep_ok(final(self).rep()),
            final(self)@ == old(self)@,
            same_entries(old(self).slots@, final(self).slots@),
            final(self).heads@.len() == 2 * old(self).heads@.len(),
            final(self).retired@ == old(self).retired@,
    {
        proof {
            lemma_rep_basics(self.rep());
        }
        let target = self.heads.len() * 2;
        let mut heads: Vec<Option<usize>> = Vec::new();
        while heads.len() < target
            invariant
                heads@.len() <= target,
                forall|b: int| 0 <= b < heads@.len() ==> heads@[b] == None::<usize>,
            decreases target - heads@.len(),
        {
            heads.push(None);
        }
        let ghost mut chains: Seq<Seq<int>> = Seq::new(target as nat, |b: int| Seq::<int>::empty());
        proof {
            lemma_relink_start(self.slots@, heads@, chains);
        }
        let mut i: usize = 0;
        while i < self.slots.len()
            invariant
                i <= self.slots@.len(),
                target > 0,
                heads@.len() == target,
                chains.len() == target,
                same_entries(old(self).slots@, self.slots@),
                relinking(self.slots@, heads@, chains, i as int),
                self.free@ == old(self).free@,
                self.live == old(self).live,
                self.retired@ == old(self).retired@,
            decreases self.slots@.len() - i,
        {
            let slot = self.slots[i];
            match slot.entry {
                Some(e) => {
                    let b = bucket_index(&e.value, target);
                    let relinked = Entry {
                        value: e.value,
                        ref_count: e.ref_count,
                        next: heads[b],
                        pinned: e.pinned,
                    };
                    let ghost slots_before = self.slots@;
                    let ghost heads_before = heads@;
                    let ghost chains_before = chains;
                    self.slots.set(i, Slot { generation: slot.generation, entry: Some(relinked) });
                    heads.set(b, Some(i));
                    proof {
                        chains = chains.update(b as int, seq![i as int] + chains[b as int]);
                        lemma_relink_step(
                            slots_before,
                            heads_before,
                            chains_before,
                            self.slots@,
                            heads@,
                            chains,
                            i as int,
                            b as int,
                        );
                    }
                },
                None => {
                    proof {
                        lemma_relink_skip(self.slots@, heads@, chains, i as int);
                    }
                },
            }
            i = i + 1;
        }
        self.heads = heads;
        proof {
            self.chains@ = chains;
            lemma_relink_done(old(self).rep(), self.rep());
        }
    }

    /// The handle of the entry that holds `value`. Where an entry holds it, that
    /// entry gets one more reference; where none does, a new entry with one
    /// reference is made, and the table grows if its buckets get crowded.
    pub fn lookup_or_insert(&mut self, value: ComplexValue) -> (h: Handle)
        requires
            old(self).wf(),
            value.wf(),
        ensures
            final(self).wf(),
            lookup_or_insert_post(old(self)@, value@, final(self)@, h),
            final(self).retired() == old(self).retired(),
            final(self).buckets() == if stored(old(self)@, value@) {
                old(self).buckets()
            } else {
                grown(old(self).buckets(), final(self)@.dom().len())
            },
    {
        match self.find(&value) {
            Some(s) => {
                let slot = self.slots[s];
                let count = slot.entry.unwrap().ref_count;
                let h = Handle { slot: s, generation: slot.generation };
                assert(holds(self@, value@, h));
                let bumped = if count < usize::MAX {
                    count + 1
                } else {
                    count
                };
                self.set_count(s, bumped);
                h
            },
            None => {
                proof {
                    assert(!stored(self@, value@));
                }
                let h = self.insert_fresh(value, 1, false);
                proof {
                    lemma_rep_basics(self.rep());
                    assert(pinned_ok(self.slots@)) by {
                        assert(live_at(old(self).slots@, 0) && live_at(old(self).slots@, 1)
                            && live_at(old(self).slots@, 2));
                        assert forall|t: int| 3 <= t && #[trigger] live_at(self.slots@, t) implies 
                            !entry_at(self.slots@, t).pinned && entry_at(self.slots@, t).ref_count
                            >= 1 by {
                            if t != h.slot {
                                assert(live_at(old(self).slots@, t));
                            }
                        }
                    }
                }
                let crowded = self.live as u128 * 4 > self.heads.len() as u128 * 3;
                if crowded && self.heads.len() <= usize::MAX / 2 {
                    let ghost slots_before = self.slots@;
                    self.grow();
                    proof {
                        lemma_same_entries_pinned(slots_before, self.slots@);
                    }
                }
                h
            },
        }
    }

    /// Adds a reference to the entry that the handle designates, or answers
    /// `DanglingHandle` where it designates none.
    pub fn retain(&mut self, h: Handle) -> (r: Result<(), Error>)
        requires
            old(self).wf(),
        ensures
            final(self).wf(),
            retain_post(old(self)@, h, final(self)@, r),
            final(self).retired() == old(self).retired(),
            final(self).buckets() == old(self).buckets(),
    {
        if !self.is_live(h) {
            return Err(Error::DanglingHandle);
        }
        let count = self.slots[h.slot].entry.unwrap().ref_count;
        let bumped = if count < usize::MAX {
            count + 1
        } else {
            count
        };
        self.set_count(h.slot, bumped);
        Ok(())
    }

    /// Takes the entry of the live slot `s` out of its chain and empties the
    /// slot, which goes to the free list under its next generation.
    fn reclaim(&mut self, s: usize)
        requires
            rep_ok(old(self).rep()),
            pinned_ok(old(self).slots@),
            live_at(old(self).slots@, s as int),
            !entry_at(old(self).slots@, s as int).pinned,
        ensures
            rep_ok(final(self).rep()),
            pinned_ok(final(self).slots@),
            final(self).heads@.len() == old(self).heads@.len(),
            final(self)@ == old(self)@.remove(
                Handle { slot: s, generation: old(self).slots@[s as int].generation },
            ),
            final(self).retired@ == old(self).retired@.insert(
                Handle { slot: s, generation: old(self).slots@[s as int].generation },
            ),
    {
        proof {
            lemma_rep_basics(self.rep());
        }
        let slot = self.slots[s];
        let e = slot.entry.unwrap();
        let b = bucket_index(&e.value, self.heads.len());
        let ghost p = lemma_position(self.rep(), s as int);
        proof {
            lemma_head(self.rep(), b as int);
            lemma_node(self.rep(), b as int, 0);
            lemma_live_positive(self.rep(), s as int);
        }
        let mut prev: Option<usize> = None;
        let mut at: usize = match self.heads[b] {
            Some(x) => x,
            None => {
                return ;
            },
        };
        let ghost mut k: int = 0;
        while at != s
            invariant
                rep_ok(self.rep()),
                0 <= b < self.heads@.len(),
                self.chains@.len() == self.heads@.len(),
                0 <= k <= p < self.chains@[b as int].len(),
                self.chains@[b as int][p] == s,
                at == self.chains@[b as int][k],
                prev == (if k == 0 {
                    None
                } else {
                    Some(self.chains@[b as int][k - 1] as usize)
                }),
            decreases p - k,
        {
            proof {
                lemma_node(self.rep(), b as int, k);
                lemma_node(self.rep(), b as int, k + 1);
            }
            let next = self.slots[at].entry.unwrap().next;
            prev = Some(at);
            at = match next {
                Some(x) => x,
                None => {
                    return ;
                },
            };
            proof {
                k = k + 1;
            }
        }
        proof {
            lemma_node(self.rep(), b as int, k);
            if k > 0 {
                lemma_node(self.rep(), b as int, k - 1);
            }
        }
        match prev {
            None => {
                self.heads.set(b, e.next);
            },
            Some(q) => {
                let before = self.slots[q];
                let qe = before.entry.unwrap();
                self.slots.set(
                    q,
                    Slot {
                        generation: before.generation,
                        entry: Some(
                            Entry {
                                value: qe.value,
                                ref_count: qe.ref_count,
                                next: e.next,
                                pinned: qe.pinned,
                            },
                        ),
                    },
                );
            },
        }
        if slot.generation < u64::MAX {
            self.slots.set(s, Slot { generation: slot.generation + 1, entry: None });
            self.free.push(s);
        } else {
            self.slots.set(s, Slot { generation: slot.generation, entry: None });
        }
        self.live = self.live - 1;
        proof {
            self.chains@ = self.chains@.update(b as int, self.chains@[b as int].remove(k));
            let h = Handle { slot: s, generation: slot.generation };
            self.retired@ = self.retired@.insert(h);
            lemma_unlink(old(self).rep(), self.rep(), s as int, b as int, k, h);
            assert(pinned_ok(self.slots@)) by {
                assert(live_at(old(self).slots@, 0) && live_at(old(self).slots@, 1) && live_at(
                    old(self).slots@,
                    2,
                ));
            }
        }
    }

    /// Gives up a reference to the entry that the handle designates. The last
    /// reference of an unpinned entry reclaims it. A handle whose entry is gone
    /// or whose count is zero is answered with `DoubleRelease`, and the table
    /// stays as it is.
    pub fn release(&mut self, h: Handle) -> (r: Result<(), Error>)
        requires
            old(self).wf(),
        ensures
            final(self).wf(),
            release_post(old(self)@, h, final(self)@, r),
            final(self).retired() == if old(self)@.contains_key(h) && !final(self)@.contains_key(h) {
                old(self).retired().insert(h)
            } else {
                old(self).retired()
            },
            final(self).buckets() == old(self).buckets(),
    {
        if !self.is_live(h) {
            return Err(Error::DoubleRelease);
        }
        let e = self.slots[h.slot].entry.unwrap();
        if e.ref_count == 0 {
            return Err(Error::DoubleRelease);
        }
        if e.ref_count == 1 && !e.pinned {
            self.reclaim(h.slot);
        } else {
            let lowered_count = if e.ref_count < usize::MAX {
                e.ref_count - 1
            } else {
                e.ref_count
            };
            self.set_count(h.slot, lowered_count);
        }
        Ok(())
    }

    /// Applies `op` to the values that `a` and `b` designate and hands back the
    /// handle of the outcome, which is looked up or inserted and so gets one
    /// more reference.
    pub fn combine(&mut self, op: Operation, a: Handle, b: Handle) -> (r: Result<Handle, Error>)
        requires
            old(self).wf(),
        ensures
            final(self).wf(),
            combine_post(old(self)@, op, a, b, final(self)@, r),
            final(self).retired() == old(self).retired(),
            final(self).buckets() == if inserts(old(self)@, op, a, b) {
                grown(old(self).buckets(), final(self)@.dom().len())
            } else {
                old(self).buckets()
            },
    {
        let x = match self.resolve(a) {
            Ok(v) => v,
            Err(_) => { return Err(Error::DanglingHandle); },
        };
        let y = match self.resolve(b) {
            Ok(v) => v,
            Err(_) => { return Err(Error::DanglingHandle); },
        };
        proof {
            lemma_model_wf(self);
        }
        let outcome = match op {
            Operation::Add => x.add(&y),
            Operation::Multiply => x.multiply(&y),
        };
        match outcome {
            Ok(value) => Ok(self.lookup_or_insert(value)),
            Err(_) => Err(Error::UnrepresentableRadicand),
        }
    }
}

impl View for ComplexTable {
    type V = Map<Handle, EntryView>;

    closed spec fn view(&self) -> Map<Handle, EntryView> {
        entries_of(self.slots@)
    }
}

/// What holds of the entries of every table.
pub open spec fn model_wf(m: Map<Handle, EntryView>) -> bool {
    &&& m.dom().finite()
    &&& forall|h: Handle, k: Handle|
        #![trigger m[h], m[k]]
        m.contains_key(h) && m.contains_key(k) && m[h].value == m[k].value ==> h == k
    &&& forall|h: Handle| #[trigger]
        m.contains_key(h) ==> m[h].value.wf() && m[h].count <= usize::MAX
    &&& forall|h: Handle| #[trigger] m.contains_key(h) && !m[h].pinned ==> m[h].count >= 1
    &&& forall|h: Handle|
        #[trigger] m.contains_key(h) && m[h].pinned ==> h == ComplexTable::zero_id() || h
            == ComplexTable::one_id() || h == ComplexTable::inv_sqrt2_id()
    &&& resident(m, ComplexTable::zero_id(), ComplexParts::zero())
    &&& resident(m, ComplexTable::one_id(), ComplexParts::one())
    &&& resident(m, ComplexTable::inv_sqrt2_id(), ComplexParts::inv_sqrt2())
}

/// The handle `h` designates a pinned entry that holds `v`.
pub open spec fn resident(m: Map<Handle, EntryView>, h: Handle, v: ComplexParts) -> bool {
    m.contains_key(h) && m[h].pinned && m[h].value == v
}

/// The entries of a new table: the three pinned values, not yet referenced.
pub open spec fn initial_entries() -> Map<Handle, EntryView> {
    Map::empty().insert(
        ComplexTable::zero_id(),
        EntryView { value: ComplexParts::zero(), count: 0, pinned: true },
    ).insert(
        ComplexTable::one_id(),
        EntryView { value: ComplexParts::one(), count: 0, pinned: true },
    ).insert(
        ComplexTable::inv_sqrt2_id(),
        EntryView { value: ComplexParts::inv_sqrt2(), count: 0, pinned: true },
    )
}

/// The entries of a consistent table are as `model_wf` says.
pub proof fn lemma_model_wf(t: &ComplexTable)
    requires
        t.wf(),
    ensures
        model_wf(t@),
{
    let m = t@;
    lemma_rep_basics(t.rep());
    assert forall|h: Handle, k: Handle|
        #![trigger m[h], m[k]]
        m.contains_key(h) && m.contains_key(k) && m[h].value == m[k].value implies h == k by {
        lemma_unique(t.rep(), h.slot as int, k.slot as int);
    }
}

/// A handle whose entry was reclaimed designates nothing, in this table and in
/// every table that it becomes: the operations only ever add to `retired`.
pub proof fn law_retired_handles_stay_dead(t: &ComplexTable, h: Handle)
    requires
        t.wf(),
        t.retired().contains(h),
    ensures
        !t@.contains_key(h),
{
    reveal(rep_ok);
}

/// No two entries hold the same value.
pub open spec fn distinct_values(m: Map<Handle, EntryView>) -> bool {
    forall|h: Handle, k: Handle|
        #![trigger m[h], m[k]]
        m.contains_key(h) && m.contains_key(k) && m[h].value == m[k].value ==> h == k
}

/// `lookup_or_insert` never stores a value twice.
pub proof fn law_lookup_keeps_values_distinct(
    m0: Map<Handle, EntryView>,
    v: ComplexParts,
    m1: Map<Handle, EntryView>,
    h: Handle,
)
    requires
        distinct_values(m0),
        lookup_or_insert_post(m0, v, m1, h),
    ensures
        distinct_values(m1),
        holds(m1, v, h),
{
    assert forall|a: Handle, b: Handle|
        #![trigger m1[a], m1[b]]
        m1.contains_key(a) && m1.contains_key(b) && m1[a].value == m1[b].value implies a == b by {
        if !stored(m0, v) {
            // The new entry is the only one that holds `v`.
            if a == h && b != h {
                assert(holds(m0, v, b));
            }
            if b == h && a != h {
                assert(holds(m0, v, a));
            }
        }
    }
}

/// Canonicalization: two values that are equal get the same handle, which
/// designates one entry that holds them, however often they are looked up.
pub proof fn law_equal_values_share_an_entry(
    m0: Map<Handle, EntryView>,
    v1: ComplexParts,
    m1: Map<Handle, EntryView>,
    h1: Handle,
    v2: ComplexParts,
    m2: Map<Handle, EntryView>,
    h2: Handle,
)
    requires
        distinct_values(m0),
        lookup_or_insert_post(m0, v1, m1, h1),
        lookup_or_insert_post(m1, v2, m2, h2),
        v1 == v2,
    ensures
        h1 == h2,
        holds(m2, v1, h1),
        m2.dom() == m1.dom(),
{
    law_lookup_keeps_values_distinct(m0, v1, m1, h1);
}

/// Collision correctness: two values that differ get different handles, each
/// of which designates the value it was given for, whatever buckets the two
/// values fall into.
pub proof fn law_different_values_are_kept_apart(
    m0: Map<Handle, EntryView>,
    v1: ComplexParts,
    m1: Map<Handle, EntryView>,
    h1: Handle,
    v2: ComplexParts,
    m2: Map<Handle, EntryView>,
    h2: Handle,
)
    requires
        distinct_values(m0),
        lookup_or_insert_post(m0, v1, m1, h1),
        lookup_or_insert_post(m1, v2, m2, h2),
        v1 != v2,
    ensures
        h1 != h2,
        holds(m2, v1, h1),
        holds(m2, v2, h2),
{
    law_lookup_keeps_values_distinct(m0, v1, m1, h1);
    law_lookup_keeps_values_distinct(m1, v2, m2, h2);
}

/// The reference count never falls below zero: once the last reference of an
/// unpinned entry is released, a further release of the same handle is refused
/// with `DoubleRelease` and leaves the table as it is.
pub proof fn law_release_below_zero_is_refused(
    m0: Map<Handle, EntryView>,
    h: Handle,
    m1: Map<Handle, EntryView>,
    r1: Result<(), Error>,
    m2: Map<Handle, EntryView>,
    r2: Result<(), Error>,
)
    requires
        m0.contains_key(h),
        !m0[h].pinned,
        m0[h].count == 1,
        release_post(m0, h, m1, r1),
        release_post(m1, h, m2, r2),
    ensures
        r1 is Ok,
        r2 == Err::<(), Error>(Error::DoubleRelease),
        m2 == m1,
{
}

/// A reference that is retained and released again leaves the entry as it
/// was, as long as the count has not reached `usize::MAX`.
pub proof fn law_retain_then_release(
    m0: Map<Handle, EntryView>,
    h: Handle,
    m1: Map<Handle, EntryView>,
    r1: Result<(), Error>,
    m2: Map<Handle, EntryView>,
    r2: Result<(), Error>,
)
    requires
        model_wf(m0),
        m0.contains_key(h),
        m0[h].count + 1 < usize::MAX,
        retain_post(m0, h, m1, r1),
        release_post(m1, h, m2, r2),
    ensures
        r1 is Ok,
        r2 is Ok,
        m2 == m0,
{
}

/// Reclamation: when the last reference of an unpinned entry is released, its
/// handle designates nothing any more, and a later lookup of the same value
/// makes a new entry with one reference.
pub proof fn law_released_entry_is_reclaimed(
    m0: Map<Handle, EntryView>,
    h: Handle,
    m1: Map<Handle, EntryView>,
    r: Result<(), Error>,
    m2: Map<Handle, EntryView>,
    h2: Handle,
)
    requires
        distinct_values(m0),
        m0.contains_key(h),
        !m0[h].pinned,
        m0[h].count == 1,
        release_post(m0, h, m1, r),
        lookup_or_insert_post(m1, m0[h].value, m2, h2),
    ensures
        r is Ok,
        !m1.contains_key(h),
        !stored(m1, m0[h].value),
        !m1.contains_key(h2),
        m2[h2] == (EntryView { value: m0[h].value, count: 1, pinned: false }),
{
}

/// Pinned stability: whatever handle is released, the three pinned values stay
/// resident under their handles.
pub proof fn law_pinned_values_stay(
    m0: Map<Handle, EntryView>,
    h: Handle,
    m1: Map<Handle, EntryView>,
    r: Result<(), Error>,
)
    requires
        model_wf(m0),
        release_post(m0, h, m1, r),
    ensures
        resident(m1, ComplexTable::zero_id(), ComplexParts::zero()),
        resident(m1, ComplexTable::one_id(), ComplexParts::one()),
        resident(m1, ComplexTable::inv_sqrt2_id(), ComplexParts::inv_sqrt2()),
{
}

/// Every table that `lookup_or_insert` leaves behind is as `model_wf` says.
pub proof fn law_lookup_keeps_model(
    m0: Map<Handle, EntryView>,
    v: ComplexParts,
    m1: Map<Handle, EntryView>,
    h: Handle,
)
    requires
        model_wf(m0),
        v.wf(),
        lookup_or_insert_post(m0, v, m1, h),
    ensures
        model_wf(m1),
{
    law_lookup_keeps_values_distinct(m0, v, m1, h);
}

/// Every table that `retain` leaves behind is as `model_wf` says.
pub proof fn law_retain_keeps_model(
    m0: Map<Handle, EntryView>,
    h: Handle,
    m1: Map<Handle, EntryView>,
    r: Result<(), Error>,
)
    requires
        model_wf(m0),
        retain_post(m0, h, m1, r),
    ensures
        model_wf(m1),
{
}

/// The reference-count invariant: every table that `release` leaves behind is
/// as `model_wf` says. So, after any number of calls of `retain` and `release`,
/// every unpinned entry that is still there is referenced, none is stored
/// twice, and the pinned values are resident.
pub proof fn law_release_keeps_model(
    m0: Map<Handle, EntryView>,
    h: Handle,
    m1: Map<Handle, EntryView>,
    r: Result<(), Error>,
)
    requires
        model_wf(m0),
        release_post(m0, h, m1, r),
    ensures
        model_wf(m1),
        r is Err ==> m1 == m0,
{
}

} // verus!
