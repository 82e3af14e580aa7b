//! The storage behind the table: slots that hold the entries, collision
//! chains that link the slots of one bucket, and a free list of empty slots.
//!
//! The chains live in the `next` links of the entries. The proofs follow them
//! through a sequence of slot numbers per bucket, which says in what order the
//! links visit the slots.

use vstd::prelude::*;
use crate::hashing::bucket_of;
use crate::table::{lemma_entry_view, Entry, EntryView, Handle};
use crate::value::ComplexParts;

verus! {

/// A storage cell: the entry it holds, if any, and the number of entries it
/// has held before.
#[derive(Clone, Copy, Debug)]
pub(crate) struct Slot {
    pub(crate) generation: u64,
    pub(crate) entry: Option<Entry>,
}

/// Slot `s` holds an entry.
pub(crate) open spec fn live_at(slots: Seq<Slot>, s: int) -> bool {
    0 <= s < slots.len() && slots[s].entry is Some
}

/// The entry held by slot `s`.
pub(crate) open spec fn entry_at(slots: Seq<Slot>, s: int) -> Entry {
    slots[s].entry.unwrap()
}

/// The handle designates the entry that its slot holds now.
pub(crate) open spec fn handle_live(slots: Seq<Slot>, h: Handle) -> bool {
    live_at(slots, h.slot as int) && slots[h.slot as int].generation == h.generation
}

/// The link that stands before position `k` of a chain.
pub(crate) open spec fn link_to(c: Seq<int>, k: int) -> Option<usize> {
    if k < c.len() {
        Some(c[k] as usize)
    } else {
        None
    }
}

/// Position `k` of bucket `b`'s chain is a live slot whose value belongs to
/// the bucket and whose link leads to the next position.
pub(crate) open spec fn node_ok(slots: Seq<Slot>, buckets: int, c: Seq<int>, b: int, k: int) -> bool {
    &&& live_at(slots, c[k])
    &&& bucket_of(entry_at(slots, c[k]).value@, buckets) == b
    &&& entry_at(slots, c[k]).next == link_to(c, k + 1)
}

/// The links of bucket `b` spell out its chain.
pub(crate) open spec fn chain_ok(slots: Seq<Slot>, heads: Seq<Option<usize>>, chains: Seq<Seq<int>>, b: int) -> bool {
    &&& heads[b] == link_to(chains[b], 0)
    &&& chains[b].no_duplicates()
    &&& forall|k: int| 0 <= k < chains[b].len() ==> #[trigger] node_ok(slots, heads.len() as int, chains[b], b, k)
}

/// Every bucket's links spell out its chain.
pub(crate) open spec fn chains_ok(slots: Seq<Slot>, heads: Seq<Option<usize>>, chains: Seq<Seq<int>>) -> bool {
    &&& heads.len() > 0
    &&& chains.len() == heads.len()
    &&& forall|b: int| 0 <= b < heads.len() ==> #[trigger] chain_ok(slots, heads, chains, b)
}

/// Slot `s`, if live, is found in the chain of its value's bucket.
pub(crate) open spec fn indexed_at(slots: Seq<Slot>, chains: Seq<Seq<int>>, s: int) -> bool {
    live_at(slots, s) ==> {
        let b = bucket_of(entry_at(slots, s).value@, chains.len() as int);
        0 <= b < chains.len() && chains[b].contains(s)
    }
}

/// Every live slot is found in the chain of its value's bucket.
pub(crate) open spec fn indexed(slots: Seq<Slot>, chains: Seq<Seq<int>>) -> bool {
    forall|s: int| #[trigger] indexed_at(slots, chains, s)
}

/// No two live slots hold the same value, and every held value is canonical.
pub(crate) open spec fn values_ok(slots: Seq<Slot>) -> bool {
    &&& forall|s: int, t: int|
        #![trigger live_at(slots, s), live_at(slots, t)]
        live_at(slots, s) && live_at(slots, t) && entry_at(slots, s).value@ == entry_at(
            slots,
            t,
        ).value@ ==> s == t
    &&& forall|s: int| #[trigger] live_at(slots, s) ==> entry_at(slots, s).value.wf()
}

/// The free list names empty slots, each once.
pub(crate) open spec fn free_ok(slots: Seq<Slot>, free: Seq<usize>) -> bool {
    &&& free.no_duplicates()
    &&& forall|i: int| 0 <= i < free.len() ==> 0 <= #[trigger] free[i] < slots.len() && !live_at(slots, free[i] as int)
}

/// Every retired handle stays behind its slot: the slot has moved on to a later
/// generation, or it is empty and will never be filled again.
pub(crate) open spec fn retired_ok(slots: Seq<Slot>, free: Seq<usize>, retired: Set<Handle>) -> bool {
    forall|h: Handle| #[trigger]
        retired.contains(h) ==> h.slot < slots.len() && (h.generation
            < slots[h.slot as int].generation || (slots[h.slot as int].entry is None
            && !free.contains(h.slot)))
}

/// No live slot holds the value `v`.
pub(crate) open spec fn absent(slots: Seq<Slot>, v: ComplexParts) -> bool {
    forall|s: int| #[trigger] live_at(slots, s) ==> entry_at(slots, s).value@ != v
}

/// The entries that the slots hold, by handle.
pub(crate) open spec fn entries_of(slots: Seq<Slot>) -> Map<Handle, EntryView> {
    Map::new(|h: Handle| handle_live(slots, h), |h: Handle| entry_at(slots, h.slot as int)@)
}

/// Slot `s` stands in no chain.
pub(crate) open spec fn unchained(chains: Seq<Seq<int>>, s: int) -> bool {
    forall|b: int, k: int|
        0 <= b < chains.len() && 0 <= k < chains[b].len() ==> #[trigger] chains[b][k] != s
}

/// The slots `after` are the slots `before` but for slot `s`.
pub(crate) open spec fn same_but(before: Seq<Slot>, after: Seq<Slot>, s: int) -> bool {
    &&& before.len() <= after.len()
    &&& forall|t: int| 0 <= t < before.len() && t != s ==> #[trigger] after[t] == before[t]
    &&& forall|t: int| before.len() <= t < after.len() && t != s ==> !#[trigger] live_at(after, t)
}

/// A slot that holds no entry stands in no chain.
pub(crate) proof fn lemma_empty_slot_unchained(
    slots: Seq<Slot>,
    heads: Seq<Option<usize>>,
    chains: Seq<Seq<int>>,
    s: int,
)
    requires
        chains_ok(slots, heads, chains),
        !live_at(slots, s),
    ensures
        unchained(chains, s),
{
    assert forall|b: int, k: int|
        0 <= b < chains.len() && 0 <= k < chains[b].len() implies #[trigger] chains[b][k] != s by {
        assert(chain_ok(slots, heads, chains, b));
        assert(node_ok(slots, heads.len() as int, chains[b], b, k));
    }
}

/// Putting a slot that stands in no chain at the front of bucket `b`'s chain
/// keeps every chain in order, and keeps in the index what was in it.
pub(crate) proof fn lemma_link_front(
    slots: Seq<Slot>,
    heads: Seq<Option<usize>>,
    chains: Seq<Seq<int>>,
    slots2: Seq<Slot>,
    heads2: Seq<Option<usize>>,
    chains2: Seq<Seq<int>>,
    s: int,
    b: int,
)
    requires
        chains_ok(slots, heads, chains),
        unchained(chains, s),
        same_but(slots, slots2, s),
        0 <= b < heads.len(),
        0 <= s < slots2.len(),
        s <= usize::MAX,
        live_at(slots2, s),
        entry_at(slots2, s).next == heads[b],
        bucket_of(entry_at(slots2, s).value@, heads.len() as int) == b,
        heads2 == heads.update(b, Some(s as usize)),
        chains2 == chains.update(b, seq![s] + chains[b]),
    ensures
        chains_ok(slots2, heads2, chains2),
        indexed_at(slots2, chains2, s),
        forall|t: int|
            t != s && indexed_at(slots, chains, t) && (live_at(slots2, t) ==> live_at(slots, t))
                ==> #[trigger] indexed_at(slots2, chains2, t),
        forall|t: int| t != s && unchained(chains, t) ==> #[trigger] unchained(chains2, t),
{
    let n = heads.len() as int;
    let c = chains[b];
    let c2 = chains2[b];
    assert(c2[0] == s);
    assert forall|k: int| 1 <= k < c2.len() implies c2[k] == c[k - 1] by {}
    assert forall|bb: int| 0 <= bb < heads2.len() implies #[trigger] chain_ok(
        slots2,
        heads2,
        chains2,
        bb,
    ) by {
        assert(chain_ok(slots, heads, chains, bb));
        if bb == b {
            assert forall|k: int| 0 <= k < c2.len() implies #[trigger] node_ok(
                slots2,
                n,
                c2,
                b,
                k,
            ) by {
                if k > 0 {
                    assert(node_ok(slots, n, c, b, k - 1));
                }
            }
        } else {
            let d = chains[bb];
            assert forall|k: int| 0 <= k < d.len() implies #[trigger] node_ok(
                slots2,
                n,
                d,
                bb,
                k,
            ) by {
                assert(node_ok(slots, n, d, bb, k));
            }
        }
    }
    assert forall|t: int|
        t != s && indexed_at(slots, chains, t) && (live_at(slots2, t) ==> live_at(slots, t))
        implies #[trigger] indexed_at(slots2, chains2, t) by {
        if live_at(slots2, t) {
            let bt = bucket_of(entry_at(slots, t).value@, n);
            let i = choose|i: int| 0 <= i < chains[bt].len() && chains[bt][i] == t;
            if bt == b {
                assert(c2[i + 1] == t);
            }
        }
    }
    assert forall|t: int| t != s && unchained(chains, t) implies #[trigger] unchained(
        chains2,
        t,
    ) by {}
}

/// Filling an empty slot with a value that no slot holds keeps the values
/// distinct and the free list, without that slot, in order; the entries are
/// the former ones and the new one.
pub(crate) proof fn lemma_fill(
    slots: Seq<Slot>,
    free: Seq<usize>,
    slots2: Seq<Slot>,
    free2: Seq<usize>,
    s: int,
    h: Handle,
)
    requires
        values_ok(slots),
        free_ok(slots, free),
        same_but(slots, slots2, s),
        !live_at(slots, s),
        live_at(slots2, s),
        entry_at(slots2, s).value.wf(),
        absent(slots, entry_at(slots2, s).value@),
        h.slot == s,
        h.generation == slots2[s].generation,
        free.len() > 0 ==> free2 == free.drop_last() && free.last() == s,
        free.len() == 0 ==> free2 == free,
    ensures
        values_ok(slots2),
        free_ok(slots2, free2),
        !entries_of(slots).contains_key(h),
        entries_of(slots2) == entries_of(slots).insert(h, entry_at(slots2, s)@),
        entries_of(slots2).dom() == entries_of(slots).dom().insert(h),
{
    assert forall|t: int| #[trigger] live_at(slots2, t) && t != s implies live_at(slots, t)
        && slots2[t] == slots[t] by {}
}

/// The three pinned values stand in the first three slots, in their first
/// generation; every other entry is unpinned and referenced.
pub(crate) open spec fn pinned_ok(slots: Seq<Slot>) -> bool {
    &&& slots.len() >= 3
    &&& pinned_at(slots, 0, ComplexParts::zero())
    &&& pinned_at(slots, 1, ComplexParts::one())
    &&& pinned_at(slots, 2, ComplexParts::inv_sqrt2())
    &&& forall|s: int|
        3 <= s && #[trigger] live_at(slots, s) ==> !entry_at(slots, s).pinned && entry_at(
            slots,
            s,
        ).ref_count >= 1
}

/// Slot `s` holds the pinned value `v` in its first generation.
pub(crate) open spec fn pinned_at(slots: Seq<Slot>, s: int, v: ComplexParts) -> bool {
    &&& live_at(slots, s)
    &&& slots[s].generation == 0
    &&& entry_at(slots, s).pinned
    &&& entry_at(slots, s).value@ == v
}

/// The state of a table, as the proofs speak of it.
pub(crate) struct Rep {
    pub(crate) slots: Seq<Slot>,
    pub(crate) heads: Seq<Option<usize>>,
    pub(crate) free: Seq<usize>,
    pub(crate) chains: Seq<Seq<int>>,
    pub(crate) live: int,
    pub(crate) retired: Set<Handle>,
}

/// The links, the index and the free list are consistent, and `live` counts
/// the entries.
#[verifier::opaque]
pub(crate) open spec fn rep_ok(r: Rep) -> bool {
    &&& chains_ok(r.slots, r.heads, r.chains)
    &&& indexed(r.slots, r.chains)
    &&& values_ok(r.slots)
    &&& free_ok(r.slots, r.free)
    &&& retired_ok(r.slots, r.free, r.retired)
    &&& 0 <= r.live
    &&& r.live + r.free.len() <= r.slots.len()
    &&& r.slots.len() <= usize::MAX
    &&& entries_of(r.slots).dom().finite()
    &&& entries_of(r.slots).dom().len() == r.live
}

/// The sizes that a consistent state has.
pub(crate) proof fn lemma_rep_basics(r: Rep)
    requires
        rep_ok(r),
    ensures
        r.heads.len() > 0,
        r.chains.len() == r.heads.len(),
        0 <= r.live,
        r.live + r.free.len() <= r.slots.len(),
        r.slots.len() <= usize::MAX,
        entries_of(r.slots).dom().finite(),
        entries_of(r.slots).dom().len() == r.live,
        forall|s: int| #[trigger] live_at(r.slots, s) ==> entry_at(r.slots, s).value.wf(),
{
    reveal(rep_ok);
}

/// The head of a bucket leads to the first position of its chain.
pub(crate) proof fn lemma_head(r: Rep, b: int)
    requires
        rep_ok(r),
        0 <= b < r.heads.len(),
    ensures
        r.heads[b] == link_to(r.chains[b], 0),
{
    reveal(rep_ok);
    assert(chain_ok(r.slots, r.heads, r.chains, b));
}

/// What holds of a position of a chain.
pub(crate) proof fn lemma_node(r: Rep, b: int, k: int)
    requires
        rep_ok(r),
        0 <= b < r.heads.len(),
        0 <= k < r.chains[b].len(),
    ensures
        node_ok(r.slots, r.heads.len() as int, r.chains[b], b, k),
        0 <= r.chains[b][k] < r.slots.len(),
        r.chains[b][k] <= usize::MAX,
{
    reveal(rep_ok);
    assert(chain_ok(r.slots, r.heads, r.chains, b));
}

/// A live slot stands in the chain of its value's bucket.
pub(crate) proof fn lemma_position(r: Rep, s: int) -> (k: int)
    requires
        rep_ok(r),
        live_at(r.slots, s),
    ensures
        0 <= bucket_of(entry_at(r.slots, s).value@, r.heads.len() as int) < r.heads.len(),
        0 <= k < r.chains[bucket_of(entry_at(r.slots, s).value@, r.heads.len() as int)].len(),
        r.chains[bucket_of(entry_at(r.slots, s).value@, r.heads.len() as int)][k] == s,
{
    reveal(rep_ok);
    assert(indexed_at(r.slots, r.chains, s));
    let b = bucket_of(entry_at(r.slots, s).value@, r.heads.len() as int);
    choose|k: int| 0 <= k < r.chains[b].len() && r.chains[b][k] == s
}

/// A value that is not found in the chain of its bucket is not in the table.
pub(crate) proof fn lemma_not_in_chain(r: Rep, v: ComplexParts, b: int)
    requires
        rep_ok(r),
        b == bucket_of(v, r.heads.len() as int),
        forall|k: int|
            0 <= k < r.chains[b].len() ==> entry_at(r.slots, #[trigger] r.chains[b][k]).value@ != v,
    ensures
        absent(r.slots, v),
{
    reveal(rep_ok);
    assert forall|s: int| #[trigger] live_at(r.slots, s) implies entry_at(r.slots, s).value@
        != v by {
        assert(indexed_at(r.slots, r.chains, s));
        if entry_at(r.slots, s).value@ == v {
            let k = choose|k: int| 0 <= k < r.chains[b].len() && r.chains[b][k] == s;
            assert(entry_at(r.slots, r.chains[b][k]).value@ != v);
        }
    }
}

/// No two live slots hold the same value.
pub(crate) proof fn lemma_unique(r: Rep, s: int, t: int)
    requires
        rep_ok(r),
        live_at(r.slots, s),
        live_at(r.slots, t),
        entry_at(r.slots, s).value@ == entry_at(r.slots, t).value@,
    ensures
        s == t,
{
    reveal(rep_ok);
}

/// A table with a live slot counts at least one entry.
pub(crate) proof fn lemma_live_positive(r: Rep, s: int)
    requires
        rep_ok(r),
        live_at(r.slots, s),
    ensures
        r.live >= 1,
{
    reveal(rep_ok);
    let h = Handle { slot: s as usize, generation: r.slots[s].generation };
    assert(entries_of(r.slots).dom().contains(h));
}

/// A slot of the free list is empty.
pub(crate) proof fn lemma_free_slot(r: Rep, i: int)
    requires
        rep_ok(r),
        0 <= i < r.free.len(),
    ensures
        0 <= r.free[i] < r.slots.len(),
        !live_at(r.slots, r.free[i] as int),
{
    reveal(rep_ok);
}

/// The state after a value that the table does not hold was put into the
/// empty slot `s` and linked at the front of bucket `b`.
pub(crate) open spec fn inserted(pre: Rep, post: Rep, s: int, b: int, e: Entry) -> bool {
    &&& 0 <= b < pre.heads.len()
    &&& b == bucket_of(e.value@, pre.heads.len() as int)
    &&& e.next == pre.heads[b]
    &&& 0 <= s <= usize::MAX
    &&& if pre.free.len() > 0 {
        &&& s == pre.free.last()
        &&& post.free == pre.free.drop_last()
        &&& post.slots == pre.slots.update(
            s,
            Slot { generation: pre.slots[s].generation, entry: Some(e) },
        )
    } else {
        &&& s == pre.slots.len()
        &&& post.free == pre.free
        &&& post.slots == pre.slots.push(Slot { generation: 0, entry: Some(e) })
    }
    &&& post.heads == pre.heads.update(b, Some(s as usize))
    &&& post.chains == pre.chains.update(b, seq![s] + pre.chains[b])
    &&& post.live == pre.live + 1
    &&& post.retired == pre.retired
    &&& post.slots.len() <= usize::MAX
}

/// Inserting a value that the table does not hold keeps the state consistent
/// and adds one entry.
pub(crate) proof fn lemma_insert(pre: Rep, post: Rep, s: int, b: int, e: Entry, h: Handle)
    requires
        rep_ok(pre),
        inserted(pre, post, s, b, e),
        e.value.wf(),
        absent(pre.slots, e.value@),
        h.slot == s,
        h.generation == post.slots[s].generation,
    ensures
        rep_ok(post),
        !live_at(pre.slots, s),
        same_but(pre.slots, post.slots, s),
        live_at(post.slots, s),
        entry_at(post.slots, s) == e,
        !entries_of(pre.slots).contains_key(h),
        entries_of(post.slots) == entries_of(pre.slots).insert(h, e@),
{
    reveal(rep_ok);
    lemma_empty_slot_unchained(pre.slots, pre.heads, pre.chains, s);
    lemma_link_front(
        pre.slots,
        pre.heads,
        pre.chains,
        post.slots,
        post.heads,
        post.chains,
        s,
        b,
    );
    lemma_fill(pre.slots, pre.free, post.slots, post.free, s, h);
    assert forall|k: Handle| #[trigger] post.retired.contains(k) implies k.slot < post.slots.len()
        && (k.generation < post.slots[k.slot as int].generation || (post.slots[k.slot as int].entry
        is None && !post.free.contains(k.slot))) by {
        if k.slot != s && post.free.contains(k.slot) {
            let i = choose|i: int| 0 <= i < post.free.len() && post.free[i] == k.slot;
            assert(pre.free[i] == k.slot);
        }
    }
}

/// The slots `b` hold what the slots `a` hold: the same values with the same
/// links, slot by slot.
pub(crate) open spec fn same_links(a: Seq<Slot>, b: Seq<Slot>) -> bool {
    &&& a.len() == b.len()
    &&& forall|t: int|
        0 <= t < a.len() ==> ((#[trigger] b[t]).entry is Some <==> a[t].entry is Some)
    &&& forall|t: int| #[trigger]
        live_at(a, t) ==> entry_at(b, t).value == entry_at(a, t).value && entry_at(b, t).next
            == entry_at(a, t).next
}

/// Slots that hold the same values with the same links are as consistent as
/// one another.
pub(crate) proof fn lemma_same_links(
    a: Seq<Slot>,
    b: Seq<Slot>,
    heads: Seq<Option<usize>>,
    free: Seq<usize>,
    chains: Seq<Seq<int>>,
)
    requires
        same_links(a, b),
        chains_ok(a, heads, chains),
        indexed(a, chains),
        values_ok(a),
        free_ok(a, free),
    ensures
        chains_ok(b, heads, chains),
        indexed(b, chains),
        values_ok(b),
        free_ok(b, free),
{
    assert forall|t: int| #[trigger] live_at(b, t) implies live_at(a, t) by {}
    assert forall|bb: int| 0 <= bb < heads.len() implies #[trigger] chain_ok(b, heads, chains, bb) by {
        assert(chain_ok(a, heads, chains, bb));
        assert forall|k: int| 0 <= k < chains[bb].len() implies #[trigger] node_ok(
            b,
            heads.len() as int,
            chains[bb],
            bb,
            k,
        ) by {
            assert(node_ok(a, heads.len() as int, chains[bb], bb, k));
        }
    }
    assert forall|t: int| #[trigger] indexed_at(b, chains, t) by {
        assert(indexed_at(a, chains, t));
    }
}

/// The state after the entry of the live slot `s` was replaced by `e`, which
/// holds the same value with the same link.
pub(crate) open spec fn recounted(pre: Rep, post: Rep, s: int, e: Entry) -> bool {
    &&& live_at(pre.slots, s)
    &&& e.value == entry_at(pre.slots, s).value
    &&& e.next == entry_at(pre.slots, s).next
    &&& post.slots == pre.slots.update(
        s,
        Slot { generation: pre.slots[s].generation, entry: Some(e) },
    )
    &&& post.heads == pre.heads
    &&& post.free == pre.free
    &&& post.chains == pre.chains
    &&& post.live == pre.live
    &&& post.retired == pre.retired
}

/// Changing the count of an entry keeps the state consistent.
pub(crate) proof fn lemma_recount(pre: Rep, post: Rep, s: int, e: Entry, h: Handle)
    requires
        rep_ok(pre),
        recounted(pre, post, s, e),
        h.slot == s,
        h.generation == pre.slots[s].generation,
    ensures
        rep_ok(post),
        entries_of(pre.slots).contains_key(h),
        entries_of(post.slots) == entries_of(pre.slots).insert(h, e@),
{
    reveal(rep_ok);
    lemma_same_links(pre.slots, post.slots, pre.heads, pre.free, pre.chains);
    assert forall|k: Handle| handle_live(post.slots, k) <==> handle_live(pre.slots, k) by {}
    assert(entries_of(post.slots) =~= entries_of(pre.slots).insert(h, e@));
}

/// The state after the live slot `s`, which stands at position `k` of bucket
/// `b`'s chain, was taken out of the chain and emptied.
pub(crate) open spec fn unlinked(pre: Rep, post: Rep, s: int, b: int, k: int) -> bool {
    let c = pre.chains[b];
    let e = entry_at(pre.slots, s);
    let emptied = Slot { generation: post.slots[s].generation, entry: None };
    &&& 0 <= b < pre.heads.len()
    &&& 0 <= k < c.len()
    &&& c[k] == s
    &&& post.slots.len() == pre.slots.len()
    &&& if k == 0 {
        &&& post.heads == pre.heads.update(b, e.next)
        &&& post.slots == pre.slots.update(s, emptied)
    } else {
        &&& post.heads == pre.heads
        &&& post.slots == pre.slots.update(
            c[k - 1],
            Slot {
                generation: pre.slots[c[k - 1]].generation,
                entry: Some(
                    Entry {
                        value: entry_at(pre.slots, c[k - 1]).value,
                        ref_count: entry_at(pre.slots, c[k - 1]).ref_count,
                        next: e.next,
                        pinned: entry_at(pre.slots, c[k - 1]).pinned,
                    },
                ),
            },
        ).update(s, emptied)
    }
    &&& post.chains == pre.chains.update(b, c.remove(k))
    &&& if pre.slots[s].generation < u64::MAX {
        &&& post.slots[s].generation == pre.slots[s].generation + 1
        &&& post.free == pre.free.push(s as usize)
    } else {
        &&& post.slots[s].generation == pre.slots[s].generation
        &&& post.free == pre.free
    }
    &&& post.live == pre.live - 1
    &&& post.retired == pre.retired.insert(
        Handle { slot: s as usize, generation: pre.slots[s].generation },
    )
}

/// Taking a slot out of its chain keeps every chain in order and every other
/// live slot in the index.
pub(crate) proof fn lemma_unlink_chains(pre: Rep, post: Rep, s: int, b: int, k: int)
    requires
        chains_ok(pre.slots, pre.heads, pre.chains),
        indexed(pre.slots, pre.chains),
        unlinked(pre, post, s, b, k),
    ensures
        chains_ok(post.slots, post.heads, post.chains),
        indexed(post.slots, post.chains),
        forall|t: int| #[trigger] live_at(post.slots, t) <==> (live_at(pre.slots, t) && t != s),
        forall|t: int|
            t != s && #[trigger] live_at(pre.slots, t) ==> post.slots[t].generation
                == pre.slots[t].generation && entry_at(post.slots, t)@ == entry_at(pre.slots, t)@
                && entry_at(post.slots, t).value == entry_at(pre.slots, t).value,
{
    let n = pre.heads.len() as int;
    let c = pre.chains[b];
    let c2 = post.chains[b];
    assert(chain_ok(pre.slots, pre.heads, pre.chains, b));
    assert(node_ok(pre.slots, n, c, b, k));
    assert forall|j: int| 0 <= j < c2.len() implies c2[j] == (if j < k {
        c[j]
    } else {
        c[j + 1]
    }) by {}
    if k > 0 {
        assert(node_ok(pre.slots, n, c, b, k - 1));
    }
    assert forall|t: int| #[trigger] live_at(post.slots, t) <==> (live_at(pre.slots, t) && t
        != s) by {}
    assert forall|t: int| t != s && #[trigger] live_at(pre.slots, t) implies post.slots[t].generation
        == pre.slots[t].generation && entry_at(post.slots, t)@ == entry_at(pre.slots, t)@
        && entry_at(post.slots, t).value == entry_at(pre.slots, t).value by {
        lemma_entry_view(entry_at(post.slots, t));
        lemma_entry_view(entry_at(pre.slots, t));
    }
    assert forall|bb: int| 0 <= bb < post.heads.len() implies #[trigger] chain_ok(
        post.slots,
        post.heads,
        post.chains,
        bb,
    ) by {
        assert(chain_ok(pre.slots, pre.heads, pre.chains, bb));
        if bb == b {
            assert forall|i: int, j: int| 0 <= i < c2.len() && 0 <= j < c2.len() && i != j implies c2[i] != c2[j] by {}
            assert forall|j: int| 0 <= j < c2.len() implies #[trigger] node_ok(
                post.slots,
                n,
                c2,
                b,
                j,
            ) by {
                let i = if j < k {
                    j
                } else {
                    j + 1
                };
                assert(node_ok(pre.slots, n, c, b, i));
                assert(link_to(c2, j + 1) == (if j + 1 == k {
                    link_to(c, k + 1)
                } else {
                    link_to(c, i + 1)
                }));
            }
        } else {
            let d = pre.chains[bb];
            assert forall|j: int| 0 <= j < d.len() implies #[trigger] node_ok(
                post.slots,
                n,
                d,
                bb,
                j,
            ) by {
                assert(node_ok(pre.slots, n, d, bb, j));
            }
        }
    }
    assert forall|t: int| #[trigger] indexed_at(post.slots, post.chains, t) by {
        if live_at(post.slots, t) {
            assert(indexed_at(pre.slots, pre.chains, t));
            let bt = bucket_of(entry_at(pre.slots, t).value@, n);
            let i = choose|i: int| 0 <= i < pre.chains[bt].len() && pre.chains[bt][i] == t;
            if bt == b {
                if i < k {
                    assert(c2[i] == t);
                } else {
                    assert(c2[i - 1] == t);
                }
            }
        }
    }
}

/// Reclaiming an entry keeps the state consistent and removes the entry.
pub(crate) proof fn lemma_unlink(pre: Rep, post: Rep, s: int, b: int, k: int, h: Handle)
    requires
        rep_ok(pre),
        unlinked(pre, post, s, b, k),
        h.slot == s,
        h.generation == pre.slots[s].generation,
    ensures
        rep_ok(post),
        entries_of(pre.slots).contains_key(h),
        entries_of(post.slots) == entries_of(pre.slots).remove(h),
        forall|t: int| #[trigger] live_at(post.slots, t) <==> (live_at(pre.slots, t) && t != s),
        forall|t: int|
            t != s && #[trigger] live_at(pre.slots, t) ==> post.slots[t].generation
                == pre.slots[t].generation && entry_at(post.slots, t)@ == entry_at(pre.slots, t)@
                && entry_at(post.slots, t).value == entry_at(pre.slots, t).value,
{
    reveal(rep_ok);
    assert(chain_ok(pre.slots, pre.heads, pre.chains, b));
    assert(node_ok(pre.slots, pre.heads.len() as int, pre.chains[b], b, k));
    lemma_unlink_chains(pre, post, s, b, k);
    assert(post.free.no_duplicates());
    assert(entries_of(post.slots) =~= entries_of(pre.slots).remove(h));
    assert forall|x: Handle| #[trigger] post.retired.contains(x) implies x.slot < post.slots.len()
        && (x.generation < post.slots[x.slot as int].generation || (post.slots[x.slot as int].entry
        is None && !post.free.contains(x.slot))) by {
        if x == h {
            // The slot was live, so the free list did not name it.
            if pre.free.contains(h.slot) {
                let i = choose|i: int| 0 <= i < pre.free.len() && pre.free[i] == h.slot;
                assert(!live_at(pre.slots, pre.free[i] as int));
            }
        } else if x.slot != s && !live_at(pre.slots, x.slot as int) {
            // An empty slot other than `s` is as it was, and is no more in the
            // free list than before.
            if k > 0 {
                assert(node_ok(pre.slots, pre.heads.len() as int, pre.chains[b], b, k - 1));
            }
            if post.free.contains(x.slot) {
                let i = choose|i: int| 0 <= i < post.free.len() && post.free[i] == x.slot;
                assert(pre.free[i] == x.slot);
            }
        }
    }
}

/// The slots `b` hold the entries of the slots `a`, slot by slot; only the
/// links may differ.
pub(crate) open spec fn same_entries(a: Seq<Slot>, b: Seq<Slot>) -> bool {
    &&& a.len() == b.len()
    &&& forall|t: int|
        0 <= t < a.len() ==> (#[trigger] b[t]).generation == a[t].generation && (b[t].entry is Some
            <==> a[t].entry is Some)
    &&& forall|t: int| #[trigger]
        live_at(a, t) ==> entry_at(b, t).value == entry_at(a, t).value && entry_at(b, t).ref_count
            == entry_at(a, t).ref_count && entry_at(b, t).pinned == entry_at(a, t).pinned
}

/// Slots that hold the same entries hold the pinned values alike.
pub(crate) proof fn lemma_same_entries_pinned(a: Seq<Slot>, b: Seq<Slot>)
    requires
        same_entries(a, b),
        pinned_ok(a),
    ensures
        pinned_ok(b),
{
    assert forall|s: int| 3 <= s && #[trigger] live_at(b, s) implies !entry_at(b, s).pinned
        && entry_at(b, s).ref_count >= 1 by {
        assert(live_at(a, s));
    }
}

/// While the table grows: the new chains are in order, they hold every live
/// slot below `i`, and no slot from `i` on.
#[verifier::opaque]
pub(crate) open spec fn relinking(slots: Seq<Slot>, heads: Seq<Option<usize>>, chains: Seq<Seq<int>>, i: int) -> bool {
    &&& chains_ok(slots, heads, chains)
    &&& forall|t: int| t < i ==> #[trigger] indexed_at(slots, chains, t)
    &&& forall|t: int| i <= t ==> #[trigger] unchained(chains, t)
}

/// Empty chains hold no slot.
pub(crate) proof fn lemma_relink_start(slots: Seq<Slot>, heads: Seq<Option<usize>>, chains: Seq<Seq<int>>)
    requires
        heads.len() > 0,
        chains.len() == heads.len(),
        forall|b: int| 0 <= b < heads.len() ==> heads[b] == None::<usize>,
        forall|b: int| 0 <= b < chains.len() ==> #[trigger] chains[b] == Seq::<int>::empty(),
    ensures
        relinking(slots, heads, chains, 0),
{
    reveal(relinking);
    assert forall|t: int| 0 <= t implies #[trigger] unchained(chains, t) by {}
}

/// Linking slot `i` into its new chain.
pub(crate) proof fn lemma_relink_step(
    slots: Seq<Slot>,
    heads: Seq<Option<usize>>,
    chains: Seq<Seq<int>>,
    slots2: Seq<Slot>,
    heads2: Seq<Option<usize>>,
    chains2: Seq<Seq<int>>,
    i: int,
    b: int,
)
    requires
        relinking(slots, heads, chains, i),
        0 <= i < slots.len(),
        i <= usize::MAX,
        live_at(slots, i),
        0 <= b < heads.len(),
        b == bucket_of(entry_at(slots, i).value@, heads.len() as int),
        slots2 == slots.update(
            i,
            Slot {
                generation: slots[i].generation,
                entry: Some(
                    Entry {
                        value: entry_at(slots, i).value,
                        ref_count: entry_at(slots, i).ref_count,
                        next: heads[b],
                        pinned: entry_at(slots, i).pinned,
                    },
                ),
            },
        ),
        heads2 == heads.update(b, Some(i as usize)),
        chains2 == chains.update(b, seq![i] + chains[b]),
    ensures
        relinking(slots2, heads2, chains2, i + 1),
{
    reveal(relinking);
    lemma_link_front(slots, heads, chains, slots2, heads2, chains2, i, b);
}

/// Passing over the empty slot `i`.
pub(crate) proof fn lemma_relink_skip(slots: Seq<Slot>, heads: Seq<Option<usize>>, chains: Seq<Seq<int>>, i: int)
    requires
        relinking(slots, heads, chains, i),
        !live_at(slots, i),
    ensures
        relinking(slots, heads, chains, i + 1),
{
    reveal(relinking);
    assert forall|t: int| t < i + 1 implies #[trigger] indexed_at(slots, chains, t) by {}
}

/// Once every slot is linked into the new chains, the state is consistent and
/// holds the entries it held.
pub(crate) proof fn lemma_relink_done(pre: Rep, post: Rep)
    requires
        rep_ok(pre),
        relinking(post.slots, post.heads, post.chains, post.slots.len() as int),
        same_entries(pre.slots, post.slots),
        post.free == pre.free,
        post.live == pre.live,
        post.retired == pre.retired,
    ensures
        rep_ok(post),
        entries_of(post.slots) == entries_of(pre.slots),
{
    reveal(rep_ok);
    reveal(relinking);
    assert forall|t: int| #[trigger] live_at(post.slots, t) implies live_at(pre.slots, t) by {}
    assert(entries_of(post.slots) =~= entries_of(pre.slots)) by {
        assert forall|x: Handle| handle_live(pre.slots, x) implies entry_at(
            post.slots,
            x.slot as int,
        )@ == entry_at(pre.slots, x.slot as int)@ by {
            lemma_entry_view(entry_at(post.slots, x.slot as int));
            lemma_entry_view(entry_at(pre.slots, x.slot as int));
        }
    }
}

} // verus!
