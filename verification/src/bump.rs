//! Bump allocation over a growing list of chunks.
//!
//! [`Bump`] is the cursor of a linear allocator that owns a list of chunks:
//! it records each chunk's size, which chunk is current and how many bytes
//! of it are consumed. [`Bump::place`] answers a request of a given size and
//! alignment in one of three ways: it places the request at the next
//! suitably aligned address of the current chunk; it moves on to the next
//! chunk already held (after a [`Bump::reset`] the chunks are refilled in
//! order); or, when no chunk is left, it names the size of the new chunk the
//! caller must hand over with [`Bump::add_chunk`]. A request that fits no
//! chunk therefore always ends in a fresh chunk that holds it, so allocation
//! only fails when the sizes leave the `usize` range. Zero-sized requests
//! are always answered at once, without touching any chunk.
//!
//! The chunks' memory and the writing of values into it live with the
//! caller, which hands the current chunk's start address to every placement.

use vstd::prelude::*;

use crate::error::{Error, Result};

verus! {

/// Size of the first chunk of an arena made by [`Bump::new`], and the least
/// size of any chunk opened later.
pub const DEFAULT_CHUNK_SIZE: usize = 4096;

/// `a` is a power of two that a `usize` can hold, as every alignment is.
pub open spec fn is_power_of_two(a: usize) -> bool {
    exists|k: nat| k < usize::BITS && a == vstd::arithmetic::power2::pow2(k)
}

/// The least multiple of `align` that is not below `c`.
pub open spec fn align_up(c: int, align: int) -> int {
    ((c + align - 1) / align) * align
}

/// Where a request of `size` bytes aligned to `align` goes in a chunk of
/// `capacity` bytes that starts at address `base` and has `offset` bytes
/// consumed: the first address from there on that is a multiple of `align`,
/// if the request ends within the chunk and no address computation leaves
/// the `usize` range.
pub open spec fn placement(
    base: usize,
    offset: usize,
    capacity: usize,
    size: usize,
    align: usize,
) -> Option<int> {
    let cursor = base + offset;
    let aligned = align_up(cursor, align as int);
    let limit = if base + capacity <= usize::MAX {
        base + capacity
    } else {
        usize::MAX as int
    };
    if cursor + align - 1 <= usize::MAX && aligned + size <= limit {
        Some(aligned)
    } else {
        None
    }
}

/// The sum of the chunk sizes.
pub open spec fn total(sizes: Seq<usize>) -> int
    decreases sizes.len(),
{
    if sizes.len() == 0 {
        0
    } else {
        total(sizes.drop_last()) + sizes.last()
    }
}

/// The mathematical value of a [`Bump`].
#[verifier::ext_equal]
pub struct BumpView {
    /// The size of each chunk, in the order the chunks were added.
    pub chunks: Seq<usize>,
    /// The chunk allocations currently go to.
    pub current: int,
    /// Bytes of the current chunk consumed, alignment padding included.
    pub offset: usize,
    /// The least size of a chunk opened later.
    pub floor: usize,
}

impl BumpView {
    /// Total size of every chunk held.
    pub open spec fn capacity(self) -> int {
        total(self.chunks)
    }

    /// Bytes consumed since the last reset: every chunk before the current
    /// one in full, and the consumed part of the current one.
    pub open spec fn consumed(self) -> int {
        total(self.chunks.take(self.current)) + self.offset
    }

    /// Where a request goes in the current chunk, if there is one and the
    /// request fits in it.
    pub open spec fn fit(self, base: usize, size: usize, align: usize) -> Option<int> {
        if self.chunks.len() == 0 {
            None
        } else {
            placement(base, self.offset, self.chunks[self.current], size, align)
        }
    }

    /// The size of the chunk to open for a request that fits nowhere: large
    /// enough for the request at any start address, and at least the floor.
    pub open spec fn new_chunk_size(self, size: usize, align: usize) -> int {
        let need = size + align - 1;
        if need > self.floor {
            need
        } else {
            self.floor as int
        }
    }

    /// The cursor is well formed: the current chunk exists (unless there is
    /// none), its consumed part lies within it, and the sizes add up within
    /// the `usize` range.
    pub open spec fn wf(self) -> bool {
        &&& self.chunks.len() == 0 ==> self.current == 0 && self.offset == 0
        &&& self.chunks.len() > 0 ==> 0 <= self.current < self.chunks.len() && self.offset
            <= self.chunks[self.current]
        &&& self.capacity() <= usize::MAX
        &&& self.floor >= 1
    }
}

/// The answer to a placement request.
#[derive(Clone, Copy, Debug, PartialEq, Eq, Structural)]
pub enum Step {
    /// The request was placed at this address.
    Placed(usize),
    /// The cursor moved on to the next chunk it holds; ask again with that
    /// chunk's start address.
    NextChunk,
    /// No chunk is left: hand over a new chunk of this many bytes with
    /// [`Bump::add_chunk`] and ask again with its start address.
    NewChunk(usize),
}

/// Bump allocation cursor. See the module documentation.
pub struct Bump {
    chunks: Vec<usize>,
    current: usize,
    offset: usize,
    floor: usize,
}

impl View for Bump {
    type V = BumpView;

    closed spec fn view(&self) -> BumpView {
        BumpView {
            chunks: self.chunks@,
            current: self.current as int,
            offset: self.offset,
            floor: self.floor,
        }
    }
}

impl Bump {
    /// The cursor is well formed.
    pub closed spec fn wf(&self) -> bool {
        self@.wf()
    }

    /// Creates a cursor that holds no chunk yet; the first request that is
    /// not zero-sized asks for a chunk of at least 4096 bytes.
    pub fn new() -> (r: Self)
        ensures
            r.wf(),
            r@ == (BumpView {
                chunks: Seq::empty(),
                current: 0,
                offset: 0,
                floor: DEFAULT_CHUNK_SIZE,
            }),
    {
        let r = Bump { chunks: Vec::new(), current: 0, offset: 0, floor: DEFAULT_CHUNK_SIZE };
        proof {
            assert(r@ =~= BumpView {
                chunks: Seq::empty(),
                current: 0,
                offset: 0,
                floor: DEFAULT_CHUNK_SIZE,
            });
        }
        r
    }

    /// Creates a cursor over a first chunk of `capacity` bytes, nothing
    /// consumed; later chunks hold at least `capacity` bytes, and never fewer
    /// than 4096.
    pub fn with_capacity(capacity: usize) -> (r: Self)
        ensures
            r.wf(),
            r@ == (BumpView {
                chunks: seq![capacity],
                current: 0,
                offset: 0,
                floor: if capacity > DEFAULT_CHUNK_SIZE {
                    capacity
                } else {
                    DEFAULT_CHUNK_SIZE
                },
            }),
    {
        let mut chunks = Vec::new();
        chunks.push(capacity);
        let floor = if capacity > DEFAULT_CHUNK_SIZE {
            capacity
        } else {
            DEFAULT_CHUNK_SIZE
        };
        let r = Bump { chunks, current: 0, offset: 0, floor };
        proof {
            assert(r@.chunks =~= seq![capacity]);
            assert(r@.chunks.drop_last() =~= Seq::<usize>::empty());
            assert(total(Seq::<usize>::empty()) == 0);
            assert(total(r@.chunks) == capacity);
        }
        r
    }

    /// Total size of every chunk held, in bytes.
    pub fn chunk_capacity(&self) -> (r: usize)
        requires
            self.wf(),
        ensures
            r == self@.capacity(),
    {
        let mut sum: usize = 0;
        let mut i: usize = 0;
        while i < self.chunks.len()
            invariant
                self.wf(),
                i <= self.chunks@.len(),
                sum == total(self.chunks@.take(i as int)),
            decreases self.chunks@.len() - i,
        {
            proof {
                lemma_total_take_step(self.chunks@, i as int);
                lemma_total_take_bounded(self.chunks@, i as int + 1);
            }
            sum = sum + self.chunks[i];
            i += 1;
        }
        proof {
            assert(self.chunks@.take(i as int) =~= self.chunks@);
        }
        sum
    }

    /// Number of chunks held. Resetting does not reduce it.
    pub fn chunk_count(&self) -> (r: usize)
        requires
            self.wf(),
        ensures
            r == self@.chunks.len(),
    {
        self.chunks.len()
    }

    /// The chunk allocations currently go to, or `None` before the first
    /// chunk is added.
    pub fn current_chunk(&self) -> (r: Option<usize>)
        requires
            self.wf(),
        ensures
            r == (if self@.chunks.len() == 0 {
                None
            } else {
                Some(self@.current as usize)
            }),
    {
        if self.chunks.len() == 0 {
            None
        } else {
            Some(self.current)
        }
    }

    /// Bytes consumed since the most recent reset (or since construction):
    /// the chunks before the current one in full and the consumed part of
    /// the current one, alignment padding included.
    pub fn allocated_bytes(&self) -> (r: usize)
        requires
            self.wf(),
        ensures
            r == self@.consumed(),
            r <= self@.capacity(),
    {
        let mut sum: usize = 0;
        let mut i: usize = 0;
        proof {
            lemma_total_take_bounded(self.chunks@, self.current as int);
        }
        while i < self.current
            invariant
                self.wf(),
                self.current <= self.chunks@.len(),
                i <= self.current,
                sum == total(self.chunks@.take(i as int)),
                total(self.chunks@.take(self.current as int)) <= total(self.chunks@),
            decreases self.current - i,
        {
            proof {
                lemma_total_take_step(self.chunks@, i as int);
                lemma_total_take_monotonic(self.chunks@, i as int + 1, self.current as int);
            }
            sum = sum + self.chunks[i];
            i += 1;
        }
        proof {
            lemma_consumed_within_capacity(self@);
        }
        sum + self.offset
    }

    /// Marks every prior allocation as discarded. The chunks are kept and are
    /// refilled from the first one on.
    pub fn reset(&mut self)
        requires
            old(self).wf(),
        ensures
            final(self).wf(),
            final(self)@ == (BumpView { current: 0, offset: 0, ..old(self)@ }),
    {
        self.current = 0;
        self.offset = 0;
    }

    /// Adds a chunk of `size` bytes and makes it current, nothing consumed.
    pub fn add_chunk(&mut self, size: usize)
        requires
            old(self).wf(),
            old(self)@.capacity() + size <= usize::MAX,
        ensures
            final(self).wf(),
            final(self)@ == (BumpView {
                chunks: old(self)@.chunks.push(size),
                current: old(self)@.chunks.len() as int,
                offset: 0,
                floor: old(self)@.floor,
            }),
            final(self)@.consumed() >= old(self)@.consumed(),
    {
        let ghost old_view = self@;
        let n = self.chunks.len();
        self.chunks.push(size);
        self.current = n;
        self.offset = 0;
        proof {
            assert(self@.chunks.drop_last() =~= old_view.chunks);
            assert(self@.chunks.take(n as int) =~= old_view.chunks);
            lemma_consumed_within_capacity(old_view);
        }
    }

    /// Answers a request of `size` bytes aligned to `align`, given the
    /// start address `base` of the current chunk (any value when there is
    /// no chunk yet).
    ///
    /// - A zero-sized request is placed at `align` itself, a well-aligned
    ///   address that no access goes through, and nothing changes.
    /// - A request that [fits](BumpView::fit) in the current chunk is placed
    ///   there and the cursor moves past it; a placement at address zero is
    ///   refused with [`Error::CapacityExceeded`] after the cursor moved.
    /// - Otherwise, when a later chunk is held, the cursor moves to it.
    /// - Otherwise the answer names the size of the chunk to add, or
    ///   [`Error::CapacityExceeded`] when that size leaves the `usize` range;
    ///   nothing changes.
    pub fn place(&mut self, base: usize, size: usize, align: usize) -> (r: Result<Step>)
        requires
            old(self).wf(),
            is_power_of_two(align),
        ensures
            final(self).wf(),
            final(self)@.consumed() >= old(self)@.consumed(),
            size == 0 ==> r == Ok::<Step, Error>(Step::Placed(align)) && final(self)@ == old(
                self,
            )@,
            size > 0 && old(self)@.fit(base, size, align) is Some ==> {
                let a = old(self)@.fit(base, size, align)->0;
                &&& final(self)@ == (BumpView {
                    offset: (a + size - base) as usize,
                    ..old(self)@
                })
                &&& r == (if a == 0 {
                    Err::<Step, Error>(Error::CapacityExceeded)
                } else {
                    Ok::<Step, Error>(Step::Placed(a as usize))
                })
            },
            size > 0 && old(self)@.fit(base, size, align) is None && old(self)@.current + 1 < old(
                self,
            )@.chunks.len() ==> r == Ok::<Step, Error>(Step::NextChunk) && final(self)@ == (
            BumpView { current: old(self)@.current + 1, offset: 0, ..old(self)@ }),
            size > 0 && old(self)@.fit(base, size, align) is None && old(self)@.current + 1
                >= old(self)@.chunks.len() ==> final(self)@ == old(self)@ && (if size + align - 1
                <= usize::MAX {
                r == Ok::<Step, Error>(
                    Step::NewChunk(old(self)@.new_chunk_size(size, align) as usize),
                )
            } else {
                r == Err::<Step, Error>(Error::CapacityExceeded)
            }),
    {
        proof {
            lemma_power_of_two_positive(align);
        }
        if size == 0 {
            return Ok(Step::Placed(align));
        }
        if self.chunks.len() > 0 {
            let capacity = self.chunks[self.current];
            match fit(base, self.offset, capacity, size, align) {
                Some(aligned) => {
                    proof {
                        lemma_placement_in_chunk(base, self.offset, capacity, size, align);
                    }
                    self.offset = aligned + size - base;
                    if aligned == 0 {
                        return Err(Error::CapacityExceeded);
                    }
                    return Ok(Step::Placed(aligned));
                },
                None => {
                    if self.current + 1 < self.chunks.len() {
                        proof {
                            lemma_total_take_step(self.chunks@, self.current as int);
                        }
                        self.current = self.current + 1;
                        self.offset = 0;
                        return Ok(Step::NextChunk);
                    }
                },
            }
        }
        match size.checked_add(align - 1) {
            Some(need) => {
                let n = if need > self.floor {
                    need
                } else {
                    self.floor
                };
                Ok(Step::NewChunk(n))
            },
            None => Err(Error::CapacityExceeded),
        }
    }
}

impl Default for Bump {
    /// A cursor that holds no chunk yet, as [`Bump::new`].
    fn default() -> (r: Self)
        ensures
            r.wf(),
            r@ == (BumpView {
                chunks: Seq::empty(),
                current: 0,
                offset: 0,
                floor: DEFAULT_CHUNK_SIZE,
            }),
    {
        Self::new()
    }
}

/// Where a request goes in a chunk, computed on machine words: the address
/// [`placement`] gives.
fn fit(base: usize, offset: usize, capacity: usize, size: usize, align: usize) -> (r: Option<
    usize,
>)
    requires
        is_power_of_two(align),
    ensures
        r is Some <==> placement(base, offset, capacity, size, align) is Some,
        r matches Some(a) ==> a == placement(base, offset, capacity, size, align)->0,
{
    proof {
        lemma_power_of_two_positive(align);
    }
    let cursor = match base.checked_add(offset) {
        Some(c) => c,
        None => {
            return None;
        },
    };
    let align_mask = align.wrapping_sub(1);
    let aligned = match cursor.checked_add(align_mask) {
        Some(a) => {
            proof {
                lemma_round_down_is_align_up(cursor, align, a);
                lemma_align_up(cursor as int, align as int);
            }
            a & !align_mask
        },
        None => {
            return None;
        },
    };
    let end = match aligned.checked_add(size) {
        Some(e) => e,
        None => {
            return None;
        },
    };
    let limit = base.saturating_add(capacity);
    if end > limit {
        return None;
    }
    Some(aligned)
}

/// A power of two is positive.
proof fn lemma_power_of_two_positive(a: usize)
    requires
        is_power_of_two(a),
    ensures
        a > 0,
{
    let k = choose|k: nat| k < usize::BITS && a == vstd::arithmetic::power2::pow2(k);
    vstd::arithmetic::power2::lemma_pow2_pos(k);
}

/// Clearing the low bits of `c + align - 1` rounds `c` up to the next
/// multiple of the power of two `align`.
proof fn lemma_round_down_is_align_up(c: usize, align: usize, x: usize)
    requires
        is_power_of_two(align),
        x == c + align - 1,
    ensures
        x & !((align - 1) as usize) == align_up(c as int, align as int),
{
    let k = choose|k: nat| k < usize::BITS && align == vstd::arithmetic::power2::pow2(k);
    vstd::arithmetic::power2::lemma_pow2_pos(k);
    let m = (align - 1) as usize;
    vstd::bits::lemma_usize_low_bits_mask_is_mod(x, k);
    assert(vstd::bits::low_bits_mask(k) == m);
    assert(x & m == x % align);
    assert(x & !m == x - (x & m)) by (bit_vector);
    vstd::arithmetic::div_mod::lemma_fundamental_div_mod(x as int, align as int);
    vstd::arithmetic::mul::lemma_mul_is_commutative(align as int, x as int / align as int);
}

/// The rounded-up address is a multiple of the alignment, not below the
/// address it rounds, and less than one alignment above it.
pub proof fn lemma_align_up(c: int, align: int)
    requires
        align > 0,
    ensures
        align_up(c, align) % align == 0,
        c <= align_up(c, align) < c + align,
{
    let x = c + align - 1;
    vstd::arithmetic::div_mod::lemma_fundamental_div_mod(x, align);
    vstd::arithmetic::div_mod::lemma_mod_bound(x, align);
    vstd::arithmetic::mul::lemma_mul_is_commutative(align, x / align);
    vstd::arithmetic::div_mod::lemma_mod_multiples_basic(x / align, align);
}

/// A placement is aligned and lies inside the chunk, after the bytes already
/// consumed; the consumed part moves past it and stays within the chunk, so
/// it never moves back.
pub proof fn lemma_placement_in_chunk(
    base: usize,
    offset: usize,
    capacity: usize,
    size: usize,
    align: usize,
)
    requires
        is_power_of_two(align),
        placement(base, offset, capacity, size, align) is Some,
    ensures
        ({
            let a = placement(base, offset, capacity, size, align)->0;
            &&& a % (align as int) == 0
            &&& base + offset <= a
            &&& a + size <= base + capacity
            &&& offset <= a + size - base <= capacity
        }),
{
    lemma_power_of_two_positive(align);
    lemma_align_up(base + offset, align as int);
}

/// A chunk takes every request that ends within it: when an address `a`
/// that is a multiple of `align` lies at or after the consumed part and less
/// than one alignment beyond it, and the request placed at `a` ends within
/// the chunk, the request is placed at `a`, whatever was consumed before.
pub proof fn lemma_placement_complete(
    base: usize,
    offset: usize,
    capacity: usize,
    size: usize,
    align: usize,
    a: int,
)
    requires
        is_power_of_two(align),
        offset <= capacity,
        base + capacity <= usize::MAX,
        base + offset + align - 1 <= usize::MAX,
        a % (align as int) == 0,
        base + offset <= a < base + offset + align,
        a + size <= base + capacity,
    ensures
        placement(base, offset, capacity, size, align) == Some(a),
{
    lemma_power_of_two_positive(align);
    let c = base + offset;
    let u = align_up(c, align as int);
    lemma_align_up(c, align as int);
    lemma_multiples_in_window_equal(a, u, align as int);
}

/// Two multiples of `align` less than `align` apart are equal.
proof fn lemma_multiples_in_window_equal(a: int, b: int, align: int)
    requires
        align > 0,
        a % align == 0,
        b % align == 0,
        a - align < b < a + align,
    ensures
        a == b,
{
    vstd::arithmetic::div_mod::lemma_fundamental_div_mod(a, align);
    vstd::arithmetic::div_mod::lemma_fundamental_div_mod(b, align);
    let qa = a / align;
    let qb = b / align;
    assert(qa == qb) by (nonlinear_arith)
        requires
            align > 0,
            a == align * qa,
            b == align * qb,
            a - align < b < a + align,
    {
        if qa < qb {
            assert(align * qb >= align * (qa + 1));
        } else if qb < qa {
            assert(align * qa >= align * (qb + 1));
        }
    }
}

/// The current chunk of a well-formed cursor takes every request that ends
/// within it, at the first suitably aligned address after the consumed part:
/// [`Bump::place`] then answers with that address, never with another chunk.
pub proof fn lemma_fit_complete(m: BumpView, base: usize, size: usize, align: usize, a: int)
    requires
        m.wf(),
        m.chunks.len() > 0,
        is_power_of_two(align),
        base + m.chunks[m.current] <= usize::MAX,
        base + m.offset + align - 1 <= usize::MAX,
        a % (align as int) == 0,
        base + m.offset <= a < base + m.offset + align,
        a + size <= base + m.chunks[m.current],
    ensures
        m.fit(base, size, align) == Some(a),
{
    lemma_placement_complete(base, m.offset, m.chunks[m.current], size, align, a);
}

/// Two successive placements in the same chunk do not overlap: the second
/// starts at or after the end of the first.
pub proof fn lemma_successive_placements_disjoint(
    base: usize,
    offset: usize,
    capacity: usize,
    size1: usize,
    align1: usize,
    size2: usize,
    align2: usize,
)
    requires
        is_power_of_two(align1),
        is_power_of_two(align2),
        placement(base, offset, capacity, size1, align1) is Some,
        placement(
            base,
            (placement(base, offset, capacity, size1, align1)->0 + size1 - base) as usize,
            capacity,
            size2,
            align2,
        ) is Some,
    ensures
        placement(base, offset, capacity, size1, align1)->0 + size1 <= placement(
            base,
            (placement(base, offset, capacity, size1, align1)->0 + size1 - base) as usize,
            capacity,
            size2,
            align2,
        )->0,
{
    lemma_placement_in_chunk(base, offset, capacity, size1, align1);
    let offset2 = (placement(base, offset, capacity, size1, align1)->0 + size1 - base) as usize;
    lemma_placement_in_chunk(base, offset2, capacity, size2, align2);
}

/// A request that fits nowhere is always placed in the chunk opened for it:
/// after adding a chunk of the size [`Bump::place`] names, asking again with
/// that chunk's start address places the request there, wherever the chunk
/// starts, so allocation never fails once the chunk is provided.
pub proof fn lemma_new_chunk_holds_request(m: BumpView, size: usize, align: usize, base: usize)
    requires
        m.wf(),
        is_power_of_two(align),
        size > 0,
        size + align - 1 <= usize::MAX,
        base + m.new_chunk_size(size, align) <= usize::MAX,
        m.capacity() + m.new_chunk_size(size, align) <= usize::MAX,
    ensures
        ({
            let grown = BumpView {
                chunks: m.chunks.push(m.new_chunk_size(size, align) as usize),
                current: m.chunks.len() as int,
                offset: 0,
                floor: m.floor,
            };
            &&& grown.fit(base, size, align) is Some
            &&& base <= grown.fit(base, size, align)->0
            &&& grown.fit(base, size, align)->0 + size <= base + m.new_chunk_size(size, align)
        }),
{
    lemma_power_of_two_positive(align);
    lemma_align_up(base as int, align as int);
}

/// The total of a prefix grows by the next chunk's size.
proof fn lemma_total_take_step(sizes: Seq<usize>, i: int)
    requires
        0 <= i < sizes.len(),
    ensures
        total(sizes.take(i + 1)) == total(sizes.take(i)) + sizes[i],
{
    assert(sizes.take(i + 1).drop_last() =~= sizes.take(i));
}

/// A longer prefix has at least the total of a shorter one.
proof fn lemma_total_take_monotonic(sizes: Seq<usize>, i: int, j: int)
    requires
        0 <= i <= j <= sizes.len(),
    ensures
        total(sizes.take(i)) <= total(sizes.take(j)),
    decreases j - i,
{
    if i < j {
        lemma_total_take_step(sizes, j - 1);
        lemma_total_take_monotonic(sizes, i, j - 1);
    }
}

/// The total of a prefix is at most the total of all chunks.
proof fn lemma_total_take_bounded(sizes: Seq<usize>, i: int)
    requires
        0 <= i <= sizes.len(),
    ensures
        total(sizes.take(i)) <= total(sizes),
{
    lemma_total_take_monotonic(sizes, i, sizes.len() as int);
    assert(sizes.take(sizes.len() as int) =~= sizes);
}

/// The bytes consumed never exceed the chunks held.
pub proof fn lemma_consumed_within_capacity(m: BumpView)
    requires
        m.wf(),
    ensures
        0 <= m.consumed() <= m.capacity(),
{
    if m.chunks.len() > 0 {
        lemma_total_take_step(m.chunks, m.current);
        lemma_total_take_bounded(m.chunks, m.current + 1);
    }
    lemma_total_nonnegative(m.chunks.take(m.current));
}

proof fn lemma_total_nonnegative(sizes: Seq<usize>)
    ensures
        total(sizes) >= 0,
    decreases sizes.len(),
{
    if sizes.len() > 0 {
        lemma_total_nonnegative(sizes.drop_last());
    }
}

} // verus!
