//! Typed arena that runs destructors.
//!
//! [`DropArena<T>`] parks every value inside a chunk of `T` slots, so that
//! `T`'s destructor runs when the arena is dropped. A chunk holds a fixed
//! number of values; when the last chunk is full, the next allocation opens
//! a new one. Values are never moved between chunks or removed.
//!
//! The arena is described by its chunks, each the sequence of values it
//! holds, in allocation order.

use vstd::prelude::*;

verus! {

/// Default number of `T` slots in each chunk.
pub const DEFAULT_CHUNK_CAPACITY: usize = 16;

/// Every value held by `chunks`, chunk after chunk, in allocation order.
pub open spec fn values<T>(chunks: Seq<Seq<T>>) -> Seq<T>
    decreases chunks.len(),
{
    if chunks.len() == 0 {
        Seq::empty()
    } else {
        values(chunks.drop_last()) + chunks.last()
    }
}

/// The chunks after allocating `value`: it joins the last chunk, or opens a
/// new chunk when there is none or the last one holds `per_chunk` values.
pub open spec fn after_alloc<T>(chunks: Seq<Seq<T>>, per_chunk: nat, value: T) -> Seq<Seq<T>> {
    if chunks.len() == 0 || chunks.last().len() == per_chunk {
        chunks.push(seq![value])
    } else {
        chunks.update(chunks.len() - 1, chunks.last().push(value))
    }
}

/// The chunks after allocating each of `vs`, in order, starting from
/// `chunks`.
pub open spec fn alloc_all<T>(chunks: Seq<Seq<T>>, per_chunk: nat, vs: Seq<T>) -> Seq<Seq<T>>
    decreases vs.len(),
{
    if vs.len() == 0 {
        chunks
    } else {
        after_alloc(alloc_all(chunks, per_chunk, vs.drop_last()), per_chunk, vs.last())
    }
}

/// Every chunk holds between one and `per_chunk` values and every chunk but
/// the last is full.
pub open spec fn packed<T>(chunks: Seq<Seq<T>>, per_chunk: nat) -> bool {
    &&& forall|i: int| 0 <= i < chunks.len() ==> 1 <= (#[trigger] chunks[i]).len() <= per_chunk
    &&& forall|i: int| 0 <= i < chunks.len() - 1 ==> (#[trigger] chunks[i]).len() == per_chunk
}

/// Typed drop-honouring arena. See the module documentation.
pub struct DropArena<T> {
    chunks: Vec<Vec<T>>,
    chunk_capacity: usize,
}

impl<T> View for DropArena<T> {
    type V = Seq<Seq<T>>;

    closed spec fn view(&self) -> Seq<Seq<T>> {
        self.chunks@.map_values(|c: Vec<T>| c@)
    }
}

impl<T> DropArena<T> {
    /// The number of `T` slots in each chunk.
    pub closed spec fn per_chunk(&self) -> nat {
        self.chunk_capacity as nat
    }

    /// Every chunk holds between one value and `per_chunk` values, every
    /// chunk but the last is full, and the value count fits in a `usize`.
    pub closed spec fn wf(&self) -> bool {
        &&& self.chunk_capacity >= 1
        &&& forall|i: int|
            0 <= i < self@.len() ==> 1 <= (#[trigger] self@[i]).len() <= self.chunk_capacity
        &&& forall|i: int| 0 <= i < self@.len() - 1 ==> (#[trigger] self@[i]).len() == self.chunk_capacity
        &&& values(self@).len() <= usize::MAX
    }

    /// Creates an empty arena whose chunks hold 16 values each.
    pub fn new() -> (r: Self)
        ensures
            r.wf(),
            r@ == Seq::<Seq<T>>::empty(),
            r.per_chunk() == DEFAULT_CHUNK_CAPACITY,
    {
        let r = DropArena { chunks: Vec::new(), chunk_capacity: DEFAULT_CHUNK_CAPACITY };
        proof {
            assert(r@ =~= Seq::<Seq<T>>::empty());
        }
        r
    }

    /// Creates an empty arena whose chunks each hold `chunk_capacity` values;
    /// a `chunk_capacity` of zero is clamped to one.
    pub fn with_chunk_capacity(chunk_capacity: usize) -> (r: Self)
        ensures
            r.wf(),
            r@ == Seq::<Seq<T>>::empty(),
            r.per_chunk() == (if chunk_capacity == 0 {
                1
            } else {
                chunk_capacity
            }),
    {
        let per_chunk = if chunk_capacity < 1 {
            1
        } else {
            chunk_capacity
        };
        let r = DropArena { chunks: Vec::new(), chunk_capacity: per_chunk };
        proof {
            assert(r@ =~= Seq::<Seq<T>>::empty());
        }
        r
    }

    /// Total number of values currently held across every chunk.
    pub fn len(&self) -> (r: usize)
        requires
            self.wf(),
        ensures
            r == values(self@).len(),
    {
        let mut total: usize = 0;
        let mut i: usize = 0;
        while i < self.chunks.len()
            invariant
                self.wf(),
                i <= self.chunks@.len(),
                total == values(self@.take(i as int)).len(),
            decreases self.chunks@.len() - i,
        {
            proof {
                lemma_values_take_step(self@, i as int);
                lemma_values_take_bounded(self@, i as int + 1);
                assert(self@[i as int] == self.chunks@[i as int]@);
            }
            total = total + self.chunks[i].len();
            i += 1;
        }
        proof {
            assert(self@.take(i as int) =~= self@);
        }
        total
    }

    /// Returns `true` when the arena holds no values.
    pub fn is_empty(&self) -> (r: bool)
        requires
            self.wf(),
        ensures
            r == (values(self@).len() == 0),
    {
        self.len() == 0
    }

    /// Number of chunks currently held.
    pub fn chunk_count(&self) -> (r: usize)
        requires
            self.wf(),
        ensures
            r == self@.len(),
    {
        self.chunks.len()
    }

    /// The chunks of a well-formed arena are packed, so the number of chunks
    /// is the number of values held divided by the chunk size, rounded up.
    pub proof fn lemma_chunk_count(&self)
        requires
            self.wf(),
        ensures
            self.per_chunk() >= 1,
            packed(self@, self.per_chunk()),
            self@.len() == (values(self@).len() + self.per_chunk() - 1) / self.per_chunk() as int,
    {
        lemma_packed_chunk_count(self@, self.per_chunk());
    }

    /// Moves `value` into the arena and returns a unique reference to it;
    /// whatever the caller writes through the reference is what the arena
    /// holds in that place. A chunk beyond `isize::MAX` bytes is refused by
    /// the vector that would hold it, so it is excluded.
    pub fn allocate(&mut self, value: T) -> (r: &mut T)
        requires
            old(self).wf(),
            values(old(self)@).len() < usize::MAX,
            old(self).per_chunk() * vstd::layout::size_of::<T>() <= isize::MAX,
        ensures
            final(self).wf(),
            *r == value,
            final(self).per_chunk() == old(self).per_chunk(),
            final(self)@ == after_alloc(old(self)@, old(self).per_chunk(), *final(r)),
            values(final(self)@) == values(old(self)@).push(*final(r)),
            final(self)@.len() == old(self)@.len() + (if values(old(self)@).len()
                % old(self).per_chunk() == 0 {
                1int
            } else {
                0int
            }),
    {
        proof {
            lemma_packed_opens_chunk(self@, self.per_chunk());
        }
        let needs_new_chunk = match self.chunks.last() {
            None => true,
            Some(c) => c.len() == self.chunk_capacity,
        };
        if needs_new_chunk {
            self.chunks.push(Vec::with_capacity(self.chunk_capacity));
        }
        let k = self.chunks.len() - 1;
        proof {
            lemma_alloc_keeps_wf(*old(self), *self, needs_new_chunk);
        }
        let current = &mut self.chunks[k];
        current.push(value);
        let n = current.len() - 1;
        &mut current[n]
    }
}

impl<T> Default for DropArena<T> {
    /// An empty arena, as [`DropArena::new`].
    fn default() -> (r: Self)
        ensures
            r.wf(),
            r@ == Seq::<Seq<T>>::empty(),
            r.per_chunk() == DEFAULT_CHUNK_CAPACITY,
    {
        Self::new()
    }
}

/// Once room for the new value is made (a new empty chunk opened when the
/// last one was full), pushing any value into the last chunk yields a
/// well-formed arena holding the allocation's result.
proof fn lemma_alloc_keeps_wf<T>(a: DropArena<T>, b: DropArena<T>, opened: bool)
    requires
        a.wf(),
        values(a@).len() < usize::MAX,
        opened == (a@.len() == 0 || a@.last().len() == a.chunk_capacity),
        b.chunk_capacity == a.chunk_capacity,
        opened ==> b.chunks@ == a.chunks@.push(b.chunks@.last()) && b.chunks@.last()@.len() == 0,
        !opened ==> b.chunks@ == a.chunks@,
    ensures
        b.chunks@.len() >= 1,
        forall|c: DropArena<T>|
            #![trigger c.wf()]
            #![trigger c.view()]
            {
                let k = b.chunks@.len() - 1;
                &&& c.chunk_capacity == b.chunk_capacity
                &&& c.chunks@ == b.chunks@.update(k, c.chunks@[k])
                &&& c.chunks@[k]@.len() == b.chunks@[k]@.len() + 1
                &&& forall|j: int|
                    0 <= j < b.chunks@[k]@.len() ==> #[trigger] c.chunks@[k]@[j]
                        == b.chunks@[k]@[j]
            } ==> c.wf() && c@ == after_alloc(
                a@,
                a.per_chunk(),
                c.chunks@[b.chunks@.len() - 1]@[b.chunks@[b.chunks@.len() - 1]@.len() as int],
            ) && values(c@) == values(a@).push(
                c.chunks@[b.chunks@.len() - 1]@[b.chunks@[b.chunks@.len() - 1]@.len() as int],
            ),
{
    assert forall|c: DropArena<T>|
        {
            let k = b.chunks@.len() - 1;
            &&& c.chunk_capacity == b.chunk_capacity
            &&& c.chunks@ == b.chunks@.update(k, c.chunks@[k])
            &&& c.chunks@[k]@.len() == b.chunks@[k]@.len() + 1
            &&& forall|j: int|
                0 <= j < b.chunks@[k]@.len() ==> #[trigger] c.chunks@[k]@[j] == b.chunks@[k]@[j]
        } implies #[trigger] c.wf() && c@ == after_alloc(
        a@,
        a.per_chunk(),
        c.chunks@[b.chunks@.len() - 1]@[b.chunks@[b.chunks@.len() - 1]@.len() as int],
    ) && values(c@) == values(a@).push(
        c.chunks@[b.chunks@.len() - 1]@[b.chunks@[b.chunks@.len() - 1]@.len() as int],
    ) by {
        let k = b.chunks@.len() - 1;
        let v = c.chunks@[k]@.last();
        assert(c.chunks@[k]@ =~= b.chunks@[k]@.push(v));
        if opened {
            assert(c@ =~= a@.push(seq![v])) by {
                assert(c@[a@.len() as int] =~= seq![v]);
            }
        } else {
            assert(c@ =~= a@.update(a@.len() - 1, a@.last().push(v)));
        }
        lemma_values_after_alloc(a@, a.per_chunk(), v);
    }
}

/// Allocating appends the value to the values held, in order: every value
/// already held stays where it was.
pub proof fn lemma_values_after_alloc<T>(chunks: Seq<Seq<T>>, per_chunk: nat, value: T)
    ensures
        values(after_alloc(chunks, per_chunk, value)) == values(chunks).push(value),
{
    let next = after_alloc(chunks, per_chunk, value);
    if chunks.len() == 0 || chunks.last().len() == per_chunk {
        assert(next.drop_last() =~= chunks);
        assert(values(next) =~= values(chunks).push(value));
    } else {
        assert(next.drop_last() =~= chunks.drop_last());
        assert(values(next) =~= values(chunks).push(value));
    }
}

/// Allocating opens a new chunk exactly when there is no chunk or the last
/// one is full, and otherwise adds to the last chunk.
pub proof fn lemma_chunk_growth<T>(chunks: Seq<Seq<T>>, per_chunk: nat, value: T)
    ensures
        after_alloc(chunks, per_chunk, value).len() == (if chunks.len() == 0
            || chunks.last().len() == per_chunk {
            chunks.len() + 1
        } else {
            chunks.len()
        }),
        after_alloc(chunks, per_chunk, value).last().last() == value,
{
}

/// Packed chunks hold `per_chunk` values in each chunk but the last, so
/// their number is the count of values held divided by `per_chunk`, rounded
/// up.
pub proof fn lemma_packed_chunk_count<T>(chunks: Seq<Seq<T>>, per_chunk: nat)
    requires
        per_chunk >= 1,
        packed(chunks, per_chunk),
    ensures
        chunks.len() == (values(chunks).len() + per_chunk - 1) / per_chunk as int,
{
    let n = chunks.len() as int;
    if n > 0 {
        lemma_full_chunks_len(chunks.drop_last(), per_chunk);
        let l = chunks.last().len() as int;
        let c = per_chunk as int;
        assert(values(chunks).len() == (n - 1) * c + l);
        assert(((n - 1) * c + l + c - 1) / c == n) by (nonlinear_arith)
            requires
                c >= 1,
                1 <= l <= c,
                n >= 1,
        {
            assert((n - 1) * c + l + c - 1 == n * c + (l - 1));
            assert(0 <= l - 1 < c);
        }
    } else {
        let c = per_chunk as int;
        assert((0 + c - 1) / c == 0) by (nonlinear_arith)
            requires
                c >= 1,
        ;
        assert(values(chunks).len() == 0);
    }
}

/// In packed chunks the last chunk is full, or there is none, exactly when
/// the count of values held is a multiple of `per_chunk`: that is when the
/// next allocation opens a chunk.
pub proof fn lemma_packed_opens_chunk<T>(chunks: Seq<Seq<T>>, per_chunk: nat)
    requires
        per_chunk >= 1,
        packed(chunks, per_chunk),
    ensures
        (chunks.len() == 0 || chunks.last().len() == per_chunk) <==> values(chunks).len()
            % per_chunk == 0,
{
    let n = chunks.len() as int;
    let c = per_chunk as int;
    if n > 0 {
        lemma_full_chunks_len(chunks.drop_last(), per_chunk);
        let l = chunks.last().len() as int;
        assert(values(chunks).len() == (n - 1) * c + l);
        assert((n - 1) * c == c * (n - 1)) by (nonlinear_arith);
        vstd::arithmetic::div_mod::lemma_mod_multiples_vanish(n - 1, l, c);
        if l == c {
            vstd::arithmetic::div_mod::lemma_mod_self_0(c);
        } else {
            vstd::arithmetic::div_mod::lemma_small_mod(l as nat, c as nat);
        }
    } else {
        assert(values(chunks).len() == 0);
    }
}

proof fn lemma_full_chunks_len<T>(chunks: Seq<Seq<T>>, per_chunk: nat)
    requires
        forall|i: int| 0 <= i < chunks.len() ==> (#[trigger] chunks[i]).len() == per_chunk,
    ensures
        values(chunks).len() == chunks.len() * per_chunk,
    decreases chunks.len(),
{
    if chunks.len() > 0 {
        lemma_full_chunks_len(chunks.drop_last(), per_chunk);
        assert(chunks.last() == chunks[chunks.len() - 1]);
        assert((chunks.len() - 1) * per_chunk + per_chunk == chunks.len() * per_chunk)
            by (nonlinear_arith);
    }
}

/// Allocating into packed chunks keeps them packed.
pub proof fn lemma_alloc_keeps_packed<T>(chunks: Seq<Seq<T>>, per_chunk: nat, value: T)
    requires
        per_chunk >= 1,
        packed(chunks, per_chunk),
    ensures
        packed(after_alloc(chunks, per_chunk, value), per_chunk),
{
    let next = after_alloc(chunks, per_chunk, value);
    assert forall|i: int| 0 <= i < next.len() implies 1 <= (#[trigger] next[i]).len()
        <= per_chunk by {
        if i < chunks.len() {
            assert(chunks[i].len() >= 1);
        }
    }
    assert forall|i: int| 0 <= i < next.len() - 1 implies (#[trigger] next[i]).len()
        == per_chunk by {
        if chunks.len() > 0 && chunks.last().len() == per_chunk && i == chunks.len() - 1 {
            assert(next[i] == chunks.last());
        }
    }
}

/// Allocating `vs` one after the other into an empty arena leaves it holding
/// exactly `vs`, in order, in as many chunks as `vs` has values divided by
/// the chunk size, rounded up.
pub proof fn lemma_alloc_all_from_empty<T>(per_chunk: nat, vs: Seq<T>)
    requires
        per_chunk >= 1,
    ensures
        packed(alloc_all(Seq::<Seq<T>>::empty(), per_chunk, vs), per_chunk),
        values(alloc_all(Seq::<Seq<T>>::empty(), per_chunk, vs)) == vs,
        alloc_all(Seq::<Seq<T>>::empty(), per_chunk, vs).len() == (vs.len() + per_chunk - 1)
            / per_chunk as int,
    decreases vs.len(),
{
    let e = Seq::<Seq<T>>::empty();
    if vs.len() == 0 {
        assert(values(e) =~= vs);
    } else {
        let rest = vs.drop_last();
        lemma_alloc_all_from_empty(per_chunk, rest);
        let p = alloc_all(e, per_chunk, rest);
        lemma_alloc_keeps_packed(p, per_chunk, vs.last());
        lemma_values_after_alloc(p, per_chunk, vs.last());
        assert(vs =~= rest.push(vs.last()));
    }
    lemma_packed_chunk_count(alloc_all(e, per_chunk, vs), per_chunk);
}

proof fn lemma_values_take_step<T>(chunks: Seq<Seq<T>>, i: int)
    requires
        0 <= i < chunks.len(),
    ensures
        values(chunks.take(i + 1)) == values(chunks.take(i)) + chunks[i],
{
    assert(chunks.take(i + 1).drop_last() =~= chunks.take(i));
}

proof fn lemma_values_take_bounded<T>(chunks: Seq<Seq<T>>, i: int)
    requires
        0 <= i <= chunks.len(),
    ensures
        values(chunks.take(i)).len() <= values(chunks).len(),
    decreases chunks.len() - i,
{
    if i < chunks.len() {
        lemma_values_take_step(chunks, i);
        lemma_values_take_bounded(chunks, i + 1);
    } else {
        assert(chunks.take(i) =~= chunks);
    }
}

} // verus!
