//! Handles, the packed-header bit layout, and the capability every allocator
//! backend offers, stated over an abstract model of its slots.
use vstd::arithmetic::power2::{lemma_pow2_pos, lemma_pow2_strictly_increases, pow2};
use vstd::bits::lemma_u32_shl_is_mul;
use vstd::prelude::*;

verus! {

/// Width, in bits, of the packed 16-bit block header.
pub const HEADER_BITS: u8 = 16;

/// Widest generation counter an allocator keeps (it is stored in a `u8`).
pub const MAX_GEN_BITS: u8 = 8;

/// Field widths of the 16-bit header that a byte buffer writes at the front of
/// each of its blocks: next-slot index, payload length and next generation.
#[derive(Clone, Copy, Debug, PartialEq, Eq, Structural)]
pub struct BitLayout {
    /// Number of bits for the slot index (the all-ones value means "no slot").
    pub slot_bits: u8,
    /// Number of bits for the generation counter.
    pub gen_bits: u8,
    /// Number of bits for the payload length.
    pub len_bits: u8,
}

/// A reference to one allocation: a slot index and the slot's generation at
/// the time of allocation.
#[derive(Clone, Copy, Debug, PartialEq, Eq, Hash, Structural)]
pub struct Handle {
    /// Slot index in the allocator.
    pub slot: u16,
    /// Generation counter used to detect stale handles.
    pub generation: u8,
}

impl Handle {
    /// Creates a handle from a slot index and a generation.
    pub fn new(slot: u16, generation: u8) -> (r: Self)
        ensures
            r.slot == slot,
            r.generation == generation,
    {
        Handle { slot, generation }
    }

    /// The slot index and generation as a pair.
    pub fn parts(&self) -> (r: (u16, u8))
        ensures
            r == (self.slot, self.generation),
    {
        (self.slot, self.generation)
    }
}

/// Abstract state of one slot of an allocator.
pub struct SlotState {
    /// Current generation of the slot.
    pub generation: u8,
    /// Whether the slot is handed out.
    pub allocated: bool,
    /// The bytes of the live allocation (empty when the slot is free).
    pub data: Seq<u8>,
}

/// Number of binary digits of `n` (0 for 0): the least `w` with `2^w > n`.
pub open spec fn bits_for(n: nat) -> nat
    decreases n,
{
    if n == 0 {
        0
    } else {
        1 + bits_for(n / 2)
    }
}

/// Payload bytes that a block of `block_size` bytes holds after its header.
pub open spec fn payload_capacity(block_size: nat) -> nat {
    if block_size >= 2 {
        (block_size - 2) as nat
    } else {
        0
    }
}

/// Whether a configuration of `slots` slots of `block_size` bytes leaves
/// room in the 16-bit header for at least one generation bit.
pub open spec fn config_fits(slots: nat, block_size: nat) -> bool {
    bits_for(slots) + bits_for(payload_capacity(block_size)) < HEADER_BITS
}

/// The layout of an allocator with `slots` slots of `block_size` bytes: the
/// slot field addresses every slot plus the "none" value, the length field
/// holds any payload length, and the generation gets what is left (at most 8).
pub open spec fn layout_for(slots: nat, block_size: nat) -> BitLayout {
    let sb = bits_for(slots);
    let lb = bits_for(payload_capacity(block_size));
    let spare = (HEADER_BITS - sb - lb) as nat;
    let gb = if spare > MAX_GEN_BITS {
        MAX_GEN_BITS as nat
    } else {
        spare
    };
    BitLayout { slot_bits: sb as u8, gen_bits: gb as u8, len_bits: (HEADER_BITS - sb - gb) as u8 }
}

/// The generation that follows `g` in a counter of `layout.gen_bits` bits.
pub open spec fn next_gen(g: u8, layout: BitLayout) -> u8 {
    ((g + 1) % (pow2(layout.gen_bits as nat) as int)) as u8
}

/// Whether `h` refers to a live allocation in `slots`.
pub open spec fn handle_live(slots: Seq<SlotState>, h: Handle) -> bool {
    &&& h.slot < slots.len()
    &&& slots[h.slot as int].allocated
    &&& slots[h.slot as int].generation == h.generation
}

/// Number of allocated slots.
pub open spec fn count_allocated(slots: Seq<SlotState>) -> nat
    decreases slots.len(),
{
    if slots.len() == 0 {
        0
    } else {
        count_allocated(slots.drop_last()) + if slots.last().allocated {
            1nat
        } else {
            0nat
        }
    }
}

/// Whether every slot is handed out.
pub open spec fn all_allocated(slots: Seq<SlotState>) -> bool {
    forall|i: int| 0 <= i < slots.len() ==> #[trigger] slots[i].allocated
}

/// What holds of every allocator state: the layout partitions the header, its
/// fields are wide enough for every slot index, payload length and generation,
/// and no live allocation is larger than a block.
pub open spec fn model_ok(slots: Seq<SlotState>, block_size: nat, layout: BitLayout) -> bool {
    &&& layout.slot_bits + layout.gen_bits + layout.len_bits == HEADER_BITS
    &&& 1 <= layout.gen_bits <= MAX_GEN_BITS
    &&& slots.len() < pow2(layout.slot_bits as nat)
    &&& payload_capacity(block_size) < pow2(layout.len_bits as nat)
    &&& forall|i: int|
        0 <= i < slots.len() ==> {
            &&& #[trigger] slots[i].generation < pow2(layout.gen_bits as nat)
            &&& slots[i].allocated ==> slots[i].data.len() <= block_size
            &&& !slots[i].allocated ==> slots[i].data.len() == 0
        }
}

/// A free slot at generation `generation`.
pub open spec fn free_slot(generation: u8) -> SlotState {
    SlotState { generation, allocated: false, data: Seq::empty() }
}

/// The slot states after a request for `len` bytes that returned `r`.
pub open spec fn alloc_post(
    old: Seq<SlotState>,
    new: Seq<SlotState>,
    block_size: nat,
    len: nat,
    r: Option<Handle>,
) -> bool {
    match r {
        None => new == old && (len > block_size || all_allocated(old)),
        Some(h) => {
            &&& len <= block_size
            &&& h.slot < old.len()
            &&& !old[h.slot as int].allocated
            &&& h.generation == old[h.slot as int].generation
            &&& new[h.slot as int].data.len() == len
            &&& new == old.update(
                h.slot as int,
                SlotState { generation: h.generation, allocated: true, data: new[h.slot as int].data },
            )
        },
    }
}

/// The slot states after freeing `h` returned `r`.
pub open spec fn free_post(
    old: Seq<SlotState>,
    new: Seq<SlotState>,
    layout: BitLayout,
    h: Handle,
    r: bool,
) -> bool {
    &&& r == handle_live(old, h)
    &&& r ==> new == old.update(
        h.slot as int,
        SlotState { generation: next_gen(h.generation, layout), allocated: false, data: Seq::empty() },
    )
    &&& !r ==> new == old
}

/// The slot states after writing `value` at `index` of the allocation `h`.
pub open spec fn set_byte_post(
    old: Seq<SlotState>,
    new: Seq<SlotState>,
    h: Handle,
    index: nat,
    value: u8,
    r: bool,
) -> bool {
    &&& r == (handle_live(old, h) && index < old[h.slot as int].data.len())
    &&& r ==> new == old.update(
        h.slot as int,
        SlotState {
            generation: h.generation,
            allocated: true,
            data: old[h.slot as int].data.update(index as int, value),
        },
    )
    &&& !r ==> new == old
}

/// The slot states after freeing everything.
pub open spec fn clear_post(old: Seq<SlotState>, new: Seq<SlotState>, layout: BitLayout) -> bool {
    &&& new.len() == old.len()
    &&& forall|i: int|
        0 <= i < old.len() ==> #[trigger] new[i] == SlotState {
            generation: next_gen(old[i].generation, layout),
            allocated: false,
            data: Seq::empty(),
        }
}

/// Fixed-size block allocation through generation-tracked handles.
///
/// An allocator is modelled by the states of its slots, its block size and
/// the header layout it advertises; the block size and layout never change.
pub trait Allocator {
    /// The state of every slot.
    spec fn slots(&self) -> Seq<SlotState>;

    /// Size of each block in bytes.
    spec fn spec_block_size(&self) -> nat;

    /// The header layout advertised to byte buffers.
    spec fn spec_layout(&self) -> BitLayout;

    /// The implementation's internal invariant.
    spec fn inv(&self) -> bool;

    /// Every state that satisfies the invariant is a sound model.
    proof fn lemma_inv(&self)
        requires
            self.inv(),
        ensures
            model_ok(self.slots(), self.spec_block_size(), self.spec_layout()),
    ;

    /// Reserves a block of `len` bytes whose contents are unspecified.
    /// Fails when `len` exceeds the block size or no slot is free.
    fn alloc_uninit(&mut self, len: usize) -> (r: Option<Handle>)
        requires
            old(self).inv(),
        ensures
            final(self).inv(),
            final(self).spec_block_size() == old(self).spec_block_size(),
            final(self).spec_layout() == old(self).spec_layout(),
            alloc_post(old(self).slots(), final(self).slots(), old(self).spec_block_size(), len as nat, r),
    ;

    /// The bytes of the live allocation `handle`, or `None` for a stale or
    /// unknown handle.
    fn get(&self, handle: Handle) -> (r: Option<&[u8]>)
        requires
            self.inv(),
        ensures
            r.is_some() == handle_live(self.slots(), handle),
            r.is_some() ==> r.unwrap()@ == self.slots()[handle.slot as int].data,
    ;

    /// Writes `value` at `index` of the live allocation `handle`; false, and
    /// nothing changed, for a stale handle or an index past its length.
    fn set_byte(&mut self, handle: Handle, index: usize, value: u8) -> (r: bool)
        requires
            old(self).inv(),
        ensures
            final(self).inv(),
            final(self).spec_block_size() == old(self).spec_block_size(),
            final(self).spec_layout() == old(self).spec_layout(),
            set_byte_post(old(self).slots(), final(self).slots(), handle, index as nat, value, r),
    ;

    /// Frees the allocation `handle` and advances its slot's generation;
    /// false, and nothing changed, when the handle is not live.
    fn free(&mut self, handle: Handle) -> (r: bool)
        requires
            old(self).inv(),
        ensures
            final(self).inv(),
            final(self).spec_block_size() == old(self).spec_block_size(),
            final(self).spec_layout() == old(self).spec_layout(),
            free_post(old(self).slots(), final(self).slots(), old(self).spec_layout(), handle, r),
    ;

    /// Number of allocated blocks.
    fn len(&self) -> (r: usize)
        requires
            self.inv(),
        ensures
            r == count_allocated(self.slots()),
    ;

    /// Whether no block is allocated.
    fn is_empty(&self) -> (r: bool)
        requires
            self.inv(),
        ensures
            r == (count_allocated(self.slots()) == 0),
    {
        self.len() == 0
    }

    /// Total number of slots.
    fn capacity(&self) -> (r: usize)
        requires
            self.inv(),
        ensures
            r == self.slots().len(),
    ;

    /// Size of each block in bytes.
    fn block_size(&self) -> (r: usize)
        requires
            self.inv(),
        ensures
            r == self.spec_block_size(),
    ;

    /// The header layout for byte buffers built on this allocator.
    fn bit_layout(&self) -> (r: BitLayout)
        requires
            self.inv(),
        ensures
            r == self.spec_layout(),
    ;

    /// Allocates a block holding a copy of `data`.
    fn alloc_bytes(&mut self, data: &[u8]) -> (r: Option<Handle>)
        requires
            old(self).inv(),
        ensures
            final(self).inv(),
            final(self).spec_block_size() == old(self).spec_block_size(),
            final(self).spec_layout() == old(self).spec_layout(),
            alloc_post(
                old(self).slots(),
                final(self).slots(),
                old(self).spec_block_size(),
                data@.len(),
                r,
            ),
            r.is_some() ==> final(self).slots()[r.unwrap().slot as int].data == data@,
    {
        let r = self.alloc_uninit(data.len());
        assert(data@.len() == data.len());
        match r {
            None => None,
            Some(h) => {
                let ghost s0 = self.slots();
                let mut i: usize = 0;
                while i < data.len()
                    invariant
                        self.inv(),
                        self.spec_block_size() == old(self).spec_block_size(),
                        self.spec_layout() == old(self).spec_layout(),
                        alloc_post(
                            old(self).slots(),
                            s0,
                            old(self).spec_block_size(),
                            data@.len(),
                            Some(h),
                        ),
                        0 <= i <= data@.len(),
                        self.slots() == s0.update(
                            h.slot as int,
                            SlotState {
                                generation: h.generation,
                                allocated: true,
                                data: self.slots()[h.slot as int].data,
                            },
                        ),
                        self.slots()[h.slot as int].data.len() == data@.len(),
                        self.slots()[h.slot as int].data.subrange(0, i as int) == data@.subrange(
                            0,
                            i as int,
                        ),
                    decreases data@.len() - i,
                {
                    let ghost before = self.slots()[h.slot as int].data;
                    let ok = self.set_byte(h, i, data[i]);
                    assert(ok);
                    assert(self.slots()[h.slot as int].data.subrange(0, i + 1) =~= data@.subrange(
                        0,
                        i + 1,
                    )) by {
                        assert(before.subrange(0, i as int) =~= data@.subrange(0, i as int));
                        assert forall|k: int| 0 <= k < i + 1 implies self.slots()[h.slot as int].data[k]
                            == data@[k] by {
                            if k < i {
                                assert(before.subrange(0, i as int)[k] == data@.subrange(
                                    0,
                                    i as int,
                                )[k]);
                            }
                        }
                    }
                    assert(self.slots() =~= s0.update(
                        h.slot as int,
                        SlotState {
                            generation: h.generation,
                            allocated: true,
                            data: self.slots()[h.slot as int].data,
                        },
                    ));
                    i = i + 1;
                }
                assert(self.slots()[h.slot as int].data =~= data@.subrange(0, data@.len() as int));
                assert(self.slots()[h.slot as int].data =~= data@);
                assert(self.slots() =~= old(self).slots().update(
                    h.slot as int,
                    SlotState {
                        generation: h.generation,
                        allocated: true,
                        data: self.slots()[h.slot as int].data,
                    },
                ));
                Some(h)
            },
        }
    }

    /// Frees every block and advances the generation of every slot.
    fn clear(&mut self)
        requires
            old(self).inv(),
        ensures
            final(self).inv(),
            final(self).spec_block_size() == old(self).spec_block_size(),
            final(self).spec_layout() == old(self).spec_layout(),
            clear_post(old(self).slots(), final(self).slots(), old(self).spec_layout()),
    ;
}

/// Usage figures of an allocator.
#[derive(Debug, Clone, Copy)]
pub struct AllocatorStats {
    /// Number of allocated slots.
    pub used: usize,
    /// Total number of slots.
    pub capacity: usize,
    /// Size of each block in bytes.
    pub block_size: usize,
}

/// The usage figures of `a`.
pub fn stats<A: Allocator>(a: &A) -> (r: AllocatorStats)
    requires
        a.inv(),
    ensures
        r.used == count_allocated(a.slots()),
        r.capacity == a.slots().len(),
        r.block_size == a.spec_block_size(),
{
    AllocatorStats { used: a.len(), capacity: a.capacity(), block_size: a.block_size() }
}

/// The least `w` with `2^w > n`.
pub fn bits_needed(n: usize) -> (r: u8)
    ensures
        r == bits_for(n as nat),
        pow2(r as nat) > n,
{
    let mut v: usize = n;
    let mut w: u8 = 0;
    proof {
        lemma_bits_for_bound(n as nat);
        lemma_bits_for_pow2(n as nat);
    }
    while v > 0
        invariant
            bits_for(n as nat) == w + bits_for(v as nat),
            bits_for(n as nat) <= 64,
        decreases v,
    {
        v = v / 2;
        w = w + 1;
    }
    w
}

/// `bits_for` of a machine word is at most 64.
pub proof fn lemma_bits_for_bound(n: nat)
    requires
        n <= usize::MAX,
    ensures
        bits_for(n) <= 64,
{
    vstd::arithmetic::power2::lemma2_to64_rest();
    lemma_bits_for_below(n, 64);
}

/// A number below `2^k` has at most `k` binary digits.
pub proof fn lemma_bits_for_below(n: nat, k: nat)
    requires
        n < pow2(k),
    ensures
        bits_for(n) <= k,
    decreases k,
{
    reveal(pow2);
    if k > 0 && n > 0 {
        vstd::arithmetic::power2::lemma_pow2_unfold(k);
        lemma_bits_for_below(n / 2, (k - 1) as nat);
    } else if n > 0 {
        vstd::arithmetic::power2::lemma2_to64();
    }
}

/// `2^bits_for(n)` exceeds `n`.
pub proof fn lemma_bits_for_pow2(n: nat)
    ensures
        pow2(bits_for(n)) > n,
    decreases n,
{
    reveal(pow2);
    lemma_pow2_pos(bits_for(n));
    if n > 0 {
        lemma_bits_for_pow2(n / 2);
        assert(n <= 2 * (n / 2) + 1);
        assert(pow2(bits_for(n)) == 2 * pow2(bits_for(n / 2))) by {
            vstd::arithmetic::power2::lemma_pow2_unfold(bits_for(n));
        }
    }
}

/// The header layout for `slots` slots of `block_size` bytes.
pub fn layout_for_config(slots: usize, block_size: usize) -> (r: BitLayout)
    requires
        config_fits(slots as nat, block_size as nat),
    ensures
        r == layout_for(slots as nat, block_size as nat),
        r.slot_bits + r.gen_bits + r.len_bits == HEADER_BITS,
        1 <= r.gen_bits <= MAX_GEN_BITS,
        slots < pow2(r.slot_bits as nat),
        payload_capacity(block_size as nat) < pow2(r.len_bits as nat),
{
    let cap: usize = if block_size >= 2 {
        block_size - 2
    } else {
        0
    };
    let sb = bits_needed(slots);
    let lb = bits_needed(cap);
    let spare: u8 = HEADER_BITS - sb - lb;
    let gb: u8 = if spare > MAX_GEN_BITS {
        MAX_GEN_BITS
    } else {
        spare
    };
    let r = BitLayout { slot_bits: sb, gen_bits: gb, len_bits: HEADER_BITS - sb - gb };
    proof {
        if lb < r.len_bits {
            lemma_pow2_strictly_increases(lb as nat, r.len_bits as nat);
        }
    }
    r
}

/// `2^w` as a machine integer, for `w < 32`.
pub fn pow2_u32(w: u8) -> (r: u32)
    requires
        w < 32,
    ensures
        r == pow2(w as nat),
{
    proof {
        vstd::bits::lemma_u32_pow2_no_overflow(w as nat);
        lemma_u32_shl_is_mul(1, w as u32);
    }
    1u32 << w as u32
}

/// The generation that follows `g` in a counter of `layout.gen_bits` bits.
pub fn advance_generation(g: u8, layout: &BitLayout) -> (r: u8)
    requires
        1 <= layout.gen_bits <= MAX_GEN_BITS,
        g < pow2(layout.gen_bits as nat),
    ensures
        r == next_gen(g, *layout),
        r < pow2(layout.gen_bits as nat),
        r != g,
{
    let limit = pow2_u32(layout.gen_bits);
    proof {
        lemma_next_gen(g, *layout);
    }
    if g as u32 + 1 >= limit {
        0
    } else {
        g + 1
    }
}

/// The number of allocated slots changes by one when one slot changes state.
pub proof fn lemma_count_update(slots: Seq<SlotState>, i: int, x: SlotState)
    requires
        0 <= i < slots.len(),
    ensures
        count_allocated(slots.update(i, x)) + (if slots[i].allocated {
            1int
        } else {
            0int
        }) == count_allocated(slots) + (if x.allocated {
            1int
        } else {
            0int
        }),
    decreases slots.len(),
{
    let s2 = slots.update(i, x);
    if i == slots.len() - 1 {
        assert(s2.drop_last() =~= slots.drop_last());
    } else {
        assert(s2.drop_last() =~= slots.drop_last().update(i, x));
        lemma_count_update(slots.drop_last(), i, x);
    }
}

/// There are at most as many allocated slots as slots, and fewer when one
/// is free.
pub proof fn lemma_count_bound(slots: Seq<SlotState>)
    ensures
        count_allocated(slots) <= slots.len(),
        !all_allocated(slots) ==> count_allocated(slots) < slots.len(),
        all_allocated(slots) ==> count_allocated(slots) == slots.len(),
        count_allocated(slots) == 0 <==> forall|i: int|
            0 <= i < slots.len() ==> !(#[trigger] slots[i].allocated),
    decreases slots.len(),
{
    if slots.len() > 0 {
        lemma_count_bound(slots.drop_last());
        if all_allocated(slots) {
            assert forall|i: int| 0 <= i < slots.drop_last().len() implies #[trigger] slots.drop_last()[i].allocated by {
                assert(slots.drop_last()[i] == slots[i]);
            }
        }
        if !all_allocated(slots) {
            let j = choose|j: int| 0 <= j < slots.len() && !slots[j].allocated;
            if j < slots.len() - 1 {
                assert(slots.drop_last()[j] == slots[j]);
            }
        }
        if count_allocated(slots) == 0 {
            assert forall|i: int| 0 <= i < slots.len() implies !(#[trigger] slots[i].allocated) by {
                if i < slots.len() - 1 {
                    assert(slots.drop_last()[i] == slots[i]);
                }
            }
        }
        if forall|i: int| 0 <= i < slots.len() ==> !(#[trigger] slots[i].allocated) {
            assert forall|i: int| 0 <= i < slots.drop_last().len() implies !(
            #[trigger] slots.drop_last()[i].allocated) by {
                assert(slots.drop_last()[i] == slots[i]);
            }
        }
    }
}

/// The generation after `g` wraps to zero past the counter's range, and
/// always differs from `g`.
pub proof fn lemma_next_gen(g: u8, layout: BitLayout)
    requires
        1 <= layout.gen_bits <= MAX_GEN_BITS,
        g < pow2(layout.gen_bits as nat),
    ensures
        next_gen(g, layout) == if g + 1 < pow2(layout.gen_bits as nat) {
            g + 1
        } else {
            0
        },
        next_gen(g, layout) < pow2(layout.gen_bits as nat),
        next_gen(g, layout) != g,
        pow2(layout.gen_bits as nat) <= 256,
{
    let m = pow2(layout.gen_bits as nat) as int;
    vstd::arithmetic::power2::lemma2_to64();
    if layout.gen_bits < 8 {
        lemma_pow2_strictly_increases(layout.gen_bits as nat, 8);
    }
    if layout.gen_bits > 1 {
        lemma_pow2_strictly_increases(1, layout.gen_bits as nat);
    }
    if g + 1 < m {
        vstd::arithmetic::div_mod::lemma_small_mod((g + 1) as nat, m as nat);
    } else {
        vstd::arithmetic::div_mod::lemma_mod_self_0(m);
    }
}

/// A handle stops being live once freed, and the slot it named then carries
/// a different generation, so an allocation from that slot yields a handle
/// that differs from the freed one.
pub proof fn lemma_handle_invalidation(
    before: Seq<SlotState>,
    after_free: Seq<SlotState>,
    after_alloc: Seq<SlotState>,
    block_size: nat,
    layout: BitLayout,
    h: Handle,
    len: nat,
    h2: Handle,
)
    requires
        model_ok(before, block_size, layout),
        free_post(before, after_free, layout, h, true),
        alloc_post(after_free, after_alloc, block_size, len, Some(h2)),
        h2.slot == h.slot,
    ensures
        !handle_live(after_free, h),
        !handle_live(after_alloc, h),
        h2.generation != h.generation,
{
    let g = h.generation;
    assert(before[h.slot as int].generation < pow2(layout.gen_bits as nat));
    lemma_next_gen(g, layout);
    assert(after_free[h.slot as int].generation == next_gen(g, layout));
}

} // verus!
