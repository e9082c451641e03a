use vstd::prelude::*;

verus! {

/// Default capacity of an arena, in bytes: enough for the working set of
/// one decoded frame and its packed bitmap at typical sizes.
pub const DEFAULT_CAPACITY: usize = 10_000_000;

/// A contiguous byte range granted out of an [`Arena`]: an offset and a
/// length, always carried together, so that a holder never addresses the
/// region without its bound.
#[derive(Clone, Copy)]
pub struct Span {
    pub start: usize,
    pub len: usize,
}

/// A fixed-capacity byte region with a single monotonically advancing
/// cursor. Ranges are granted by [`Arena::allocate`]; the only reclamation is
/// [`Arena::reset_heap`], which takes the whole region back at once. No
/// per-range free exists, so there is no fragmentation and no free list.
pub struct Arena {
    heap: Vec<u8>,
    next: usize,
}

impl Arena {
    /// Total number of bytes the arena owns; fixed at construction.
    pub closed spec fn capacity(self) -> nat {
        self.heap@.len()
    }

    /// The allocation cursor: bytes below it are granted, bytes from it up
    /// to the capacity are still free.
    pub closed spec fn cursor(self) -> nat {
        self.next as nat
    }

    /// The arena's bytes.
    pub closed spec fn bytes(self) -> Seq<u8> {
        self.heap@
    }

    /// The cursor never points past the end of the region.
    pub open spec fn wf(self) -> bool {
        self.cursor() <= self.capacity()
    }

    /// Whether an allocation of `size` bytes would be granted: exactly when
    /// that many bytes remain between the cursor and the capacity.
    pub open spec fn grants(self, size: nat) -> bool {
        self.cursor() + size <= self.capacity()
    }

    /// A fresh, zero-filled arena of the given capacity with its cursor at
    /// the start.
    pub fn new(capacity: usize) -> (arena: Arena)
        ensures
            arena.wf(),
            arena.capacity() == capacity,
            arena.cursor() == 0,
            arena.bytes() == Seq::new(capacity as nat, |i: int| 0u8),
    {
        let mut heap: Vec<u8> = Vec::new();
        while heap.len() < capacity
            invariant
                heap@.len() <= capacity,
                forall|i: int| 0 <= i < heap@.len() ==> heap@[i] == 0u8,
            decreases capacity - heap.len(),
        {
            heap.push(0);
        }
        proof {
            assert(heap@ =~= Seq::new(capacity as nat, |i: int| 0u8));
        }
        Arena { heap, next: 0 }
    }

    /// Grant the next `size` bytes, or report exhaustion.
    ///
    /// Succeeds exactly when `size` bytes remain; on success the span starts
    /// at the old cursor and the cursor advances past it, so ranges granted
    /// without an intervening reset never overlap. A failed call has no
    /// effect at all. `size == 0` is legal and grants an empty span without
    /// moving the cursor.
    pub fn allocate(&mut self, size: usize) -> (granted: Option<Span>)
        requires
            old(self).wf(),
        ensures
            final(self).wf(),
            final(self).capacity() == old(self).capacity(),
            final(self).bytes() == old(self).bytes(),
            granted is Some <==> old(self).grants(size as nat),
            match granted {
                Some(span) => {
                    &&& span.start == old(self).cursor()
                    &&& span.len == size
                    &&& final(self).cursor() == old(self).cursor() + size
                },
                None => final(self).cursor() == old(self).cursor(),
            },
    {
        if size <= self.heap.len() - self.next {
            let start = self.next;
            self.next = self.next + size;
            Some(Span { start, len: size })
        } else {
            None
        }
    }

    /// Move the cursor back to the start, reclaiming the entire region in
    /// one step. Every previously granted span is invalid from here on; the
    /// arena keeps no record of outstanding spans, so honoring that is the
    /// caller's obligation.
    pub fn reset_heap(&mut self)
        requires
            old(self).wf(),
        ensures
            final(self).wf(),
            final(self).capacity() == old(self).capacity(),
            final(self).bytes() == old(self).bytes(),
            final(self).cursor() == 0,
    {
        self.next = 0;
    }

    /// Capacity of the arena in bytes.
    pub fn capacity_bytes(&self) -> (n: usize)
        ensures
            n == self.capacity(),
    {
        self.heap.len()
    }

    /// Bytes granted so far: the position of the cursor.
    pub fn allocated_bytes(&self) -> (n: usize)
        ensures
            n == self.cursor(),
    {
        self.next
    }

    /// Overwrite a granted range with `data`. Everything outside the range
    /// is untouched and the cursor does not move.
    pub fn write_bytes(&mut self, span: Span, data: &Vec<u8>)
        requires
            old(self).wf(),
            span.start + span.len <= old(self).capacity(),
            data@.len() == span.len,
        ensures
            final(self).wf(),
            final(self).capacity() == old(self).capacity(),
            final(self).cursor() == old(self).cursor(),
            final(self).bytes().subrange(span.start as int, span.start + span.len) == data@,
            forall|j: int|
                0 <= j < old(self).bytes().len() && !(span.start <= j < span.start + span.len)
                    ==> final(self).bytes()[j] == old(self).bytes()[j],
    {
        let ghost orig = self.heap@;
        let ghost orig_next = self.next;
        let mut i: usize = 0;
        let cap: usize = self.heap.len();
        assert(span.start + span.len <= cap <= usize::MAX);
        while i < span.len
            invariant
                i <= span.len,
                span.start + span.len <= self.heap@.len() <= usize::MAX,
                self.heap@.len() == orig.len(),
                self.next == orig_next,
                data@.len() == span.len,
                forall|j: int| 0 <= j < i ==> self.heap@[span.start + j] == data@[j],
                forall|j: int|
                    0 <= j < orig.len() && !(span.start <= j < span.start + i) ==> self.heap@[j]
                        == orig[j],
            decreases span.len - i,
        {
            self.heap.set(span.start + i, data[i]);
            i = i + 1;
        }
        proof {
            assert(self.bytes().subrange(span.start as int, span.start + span.len) =~= data@);
        }
    }

    /// Copy a granted range out of the arena.
    pub fn read_bytes(&self, span: Span) -> (out: Vec<u8>)
        requires
            span.start + span.len <= self.capacity(),
        ensures
            out@ == self.bytes().subrange(span.start as int, span.start + span.len),
    {
        let mut out: Vec<u8> = Vec::new();
        let mut i: usize = 0;
        let cap: usize = self.heap.len();
        assert(span.start + span.len <= cap <= usize::MAX);
        while i < span.len
            invariant
                i <= span.len,
                span.start + span.len <= self.heap@.len() <= usize::MAX,
                out@.len() == i,
                forall|j: int| 0 <= j < i ==> out@[j] == self.heap@[span.start + j],
            decreases span.len - i,
        {
            out.push(self.heap[span.start + i]);
            i = i + 1;
        }
        proof {
            assert(out@ =~= self.bytes().subrange(span.start as int, span.start + span.len));
        }
        out
    }
}

/// The cursor after a sequence of allocation requests is served in order,
/// starting from `cursor`: a request advances the cursor by its size
/// exactly when it fits under the capacity, and is refused without effect
/// otherwise — one step per request, as [`Arena::allocate`] ensures.
pub open spec fn cursor_after(capacity: nat, cursor: nat, sizes: Seq<nat>) -> nat
    decreases sizes.len(),
{
    if sizes.len() == 0 {
        cursor
    } else if cursor + sizes[0] <= capacity {
        cursor_after(capacity, (cursor + sizes[0]) as nat, sizes.drop_first())
    } else {
        cursor_after(capacity, cursor, sizes.drop_first())
    }
}

/// The sum of the sizes granted while that same sequence of requests is
/// served: a request counts exactly when it fits at the moment it is made.
pub open spec fn granted_total(capacity: nat, cursor: nat, sizes: Seq<nat>) -> nat
    decreases sizes.len(),
{
    if sizes.len() == 0 {
        0
    } else if cursor + sizes[0] <= capacity {
        sizes[0] + granted_total(capacity, (cursor + sizes[0]) as nat, sizes.drop_first())
    } else {
        granted_total(capacity, cursor, sizes.drop_first())
    }
}

/// Law: over any sequence of allocation requests without an intervening
/// reset, the cursor advances by exactly the sum of the granted sizes, and
/// that sum never drives it past the capacity — so from a fresh or freshly
/// reset arena, the granted sizes never total more than the capacity. A
/// refused request leaves the running total unchanged.
pub proof fn lemma_granted_never_exceeds_capacity(capacity: nat, cursor: nat, sizes: Seq<nat>)
    requires
        cursor <= capacity,
    ensures
        cursor_after(capacity, cursor, sizes) == cursor + granted_total(capacity, cursor, sizes),
        cursor + granted_total(capacity, cursor, sizes) <= capacity,
    decreases sizes.len(),
{
    if sizes.len() == 0 {
    } else if cursor + sizes[0] <= capacity {
        lemma_granted_never_exceeds_capacity(
            capacity,
            (cursor + sizes[0]) as nat,
            sizes.drop_first(),
        );
    } else {
        lemma_granted_never_exceeds_capacity(capacity, cursor, sizes.drop_first());
    }
}

/// The byte ranges granted while a sequence of allocation requests is
/// served in order from `cursor`, each as a start offset and a length:
/// exactly the requests that fit at the moment they are made, each starting
/// at the cursor of its moment.
pub open spec fn granted_ranges(capacity: nat, cursor: nat, sizes: Seq<nat>) -> Seq<(nat, nat)>
    decreases sizes.len(),
{
    if sizes.len() == 0 {
        seq![]
    } else if cursor + sizes[0] <= capacity {
        seq![(cursor, sizes[0])] + granted_ranges(
            capacity,
            (cursor + sizes[0]) as nat,
            sizes.drop_first(),
        )
    } else {
        granted_ranges(capacity, cursor, sizes.drop_first())
    }
}

/// Law: the ranges granted without an intervening reset never overlap —
/// each granted range lies inside the arena, and every later one begins at
/// or after the end of every earlier one.
pub proof fn lemma_granted_ranges_disjoint(capacity: nat, cursor: nat, sizes: Seq<nat>)
    requires
        cursor <= capacity,
    ensures
        forall|i: int|
            0 <= i < granted_ranges(capacity, cursor, sizes).len() ==> cursor <= #[trigger] granted_ranges(
                capacity,
                cursor,
                sizes,
            )[i].0 && granted_ranges(capacity, cursor, sizes)[i].0 + granted_ranges(
                capacity,
                cursor,
                sizes,
            )[i].1 <= capacity,
        forall|i: int, j: int|
            0 <= i < j < granted_ranges(capacity, cursor, sizes).len() ==> #[trigger] granted_ranges(
                capacity,
                cursor,
                sizes,
            )[i].0 + granted_ranges(capacity, cursor, sizes)[i].1 <= #[trigger] granted_ranges(
                capacity,
                cursor,
                sizes,
            )[j].0,
    decreases sizes.len(),
{
    let sp = granted_ranges(capacity, cursor, sizes);
    if sizes.len() == 0 {
    } else if cursor + sizes[0] <= capacity {
        lemma_granted_ranges_disjoint(capacity, (cursor + sizes[0]) as nat, sizes.drop_first());
        let tail = granted_ranges(capacity, (cursor + sizes[0]) as nat, sizes.drop_first());
        assert(sp == seq![(cursor, sizes[0])] + tail);
        assert(sp[0] == (cursor, sizes[0]));
        assert forall|i: int| 0 <= i < sp.len() implies cursor <= #[trigger] sp[i].0 && sp[i].0
            + sp[i].1 <= capacity by {
            if i > 0 {
                assert(sp[i] == tail[i - 1]);
            }
        }
        assert forall|i: int, j: int| 0 <= i < j < sp.len() implies #[trigger] sp[i].0 + sp[i].1
            <= #[trigger] sp[j].0 by {
            assert(sp[j] == tail[j - 1]);
            if i > 0 {
                assert(sp[i] == tail[i - 1]);
            }
        }
    } else {
        lemma_granted_ranges_disjoint(capacity, cursor, sizes.drop_first());
        assert(sp == granted_ranges(capacity, cursor, sizes.drop_first()));
    }
}

/// Law: a reset enables any allocation that fits the arena at all —
/// [`Arena::reset_heap`] puts the cursor at zero, and an arena whose cursor
/// is zero grants every size up to its capacity, whatever was allocated
/// before.
pub proof fn lemma_reset_enables_alloc(arena: Arena, size: nat)
    requires
        arena.cursor() == 0,
        size <= arena.capacity(),
    ensures
        arena.grants(size),
{
}

} // verus!
