//! Slab backend: a byte array split into equal blocks, a free list threaded
//! through the free slots, and a generation counter per slot.
use crate::allocator::{
    advance_generation, bits_for, config_fits, count_allocated, free_slot, layout_for, layout_for_config,
    lemma_count_bound, lemma_count_update, next_gen, payload_capacity, Allocator, BitLayout, Handle,
    SlotState, HEADER_BITS, MAX_GEN_BITS,
};
use vstd::arithmetic::power2::pow2;
use vstd::arithmetic::mul::{lemma_mul_inequality, lemma_mul_is_distributive_add_other_way};
use vstd::prelude::*;

verus! {

/// Free-list index meaning "no slot".
const NONE_SLOT: u8 = 255;

/// Largest number of slots: slot indices are stored in a `u8`, and 255 is
/// the "no slot" value.
pub const MAX_SLOTS: usize = 255;

/// Bookkeeping of one slot.
#[derive(Clone, Copy)]
struct SlotMeta {
    generation: u8,
    /// Bytes in use by the live allocation (0 when free).
    size: u16,
    /// Next slot of the free list, or `NONE_SLOT`.
    next_free: u8,
    allocated: bool,
}

/// A fixed-size slab allocator: `CAPACITY` bytes split into `SLOTS` blocks
/// of `CAPACITY / SLOTS` bytes each.
pub struct TinySlabAllocator<const CAPACITY: usize, const SLOTS: usize> {
    memory: Vec<u8>,
    slots: Vec<SlotMeta>,
    free_head: u8,
    used_count: u8,
    layout: BitLayout,
    /// The free slots in free-list order, from `free_head`.
    free_list: Ghost<Seq<u8>>,
}

/// Blocks `s` and `t` of a slab with blocks of `bs` bytes do not overlap.
proof fn lemma_blocks_disjoint(s: int, t: int, bs: int, i: int, j: int)
    requires
        0 <= s,
        0 <= t,
        s != t,
        0 <= i < bs,
        0 <= j < bs,
    ensures
        s * bs + i != t * bs + j,
{
    if s < t {
        lemma_mul_inequality(s + 1, t, bs);
        lemma_mul_is_distributive_add_other_way(bs, s, 1);
    } else {
        lemma_mul_inequality(t + 1, s, bs);
        lemma_mul_is_distributive_add_other_way(bs, t, 1);
    }
}

/// Block `s` of a slab of `slots` blocks of `bs` bytes lies inside it.
proof fn lemma_block_in_range(s: int, slots: int, bs: int, capacity: int)
    requires
        0 <= s < slots,
        0 <= bs,
        bs == capacity / slots,
        0 <= capacity,
    ensures
        s * bs + bs <= capacity,
        0 <= s * bs,
{
    lemma_mul_inequality(s + 1, slots, bs);
    lemma_mul_is_distributive_add_other_way(bs, s, 1);
    vstd::arithmetic::div_mod::lemma_fundamental_div_mod(capacity, slots);
    vstd::arithmetic::mul::lemma_mul_is_commutative(slots, bs);
    vstd::arithmetic::mul::lemma_mul_nonnegative(s, bs);
}

impl<const CAPACITY: usize, const SLOTS: usize> TinySlabAllocator<CAPACITY, SLOTS> {
    /// Size of each block in bytes.
    pub open spec fn spec_bs() -> nat {
        (CAPACITY / SLOTS) as nat
    }

    /// Abstract state of slot `i`.
    closed spec fn slot_view(&self, i: int) -> SlotState {
        let m = self.slots@[i];
        let start = i * Self::spec_bs();
        SlotState {
            generation: m.generation,
            allocated: m.allocated,
            data: self.memory@.subrange(start, start + m.size),
        }
    }

    closed spec fn view_seq(&self) -> Seq<SlotState> {
        Seq::new(SLOTS as nat, |i: int| self.slot_view(i))
    }

    closed spec fn free_list_ok(&self) -> bool {
        let fl = self.free_list@;
        &&& fl.no_duplicates()
        &&& forall|k: int|
            0 <= k < fl.len() ==> #[trigger] fl[k] < SLOTS && !self.slots@[fl[k] as int].allocated
        &&& forall|k: int|
            0 <= k < fl.len() - 1 ==> self.slots@[#[trigger] fl[k] as int].next_free == fl[k + 1]
        &&& fl.len() > 0 ==> self.free_head == fl[0] && self.slots@[fl.last() as int].next_free
            == NONE_SLOT
        &&& (fl.len() == 0 <==> self.free_head == NONE_SLOT)
    }

    /// Either the free list was not built yet and nothing is allocated, or it
    /// holds every free slot.
    closed spec fn free_list_complete(&self) -> bool {
        ||| self.used_count == 0 && self.free_list@.len() == 0
        ||| forall|i: int|
            0 <= i < SLOTS && !(#[trigger] self.slots@[i]).allocated ==> self.free_list@.contains(
                i as u8,
            )
    }

    closed spec fn meta_ok(&self) -> bool {
        forall|i: int|
            0 <= i < SLOTS ==> {
                &&& (#[trigger] self.slots@[i]).generation < pow2(self.layout.gen_bits as nat)
                &&& self.slots@[i].size <= Self::spec_bs()
                &&& !self.slots@[i].allocated ==> self.slots@[i].size == 0
            }
    }

    closed spec fn config_ok(&self) -> bool {
        &&& 0 < SLOTS <= MAX_SLOTS
        &&& config_fits(SLOTS as nat, Self::spec_bs())
        &&& self.layout == layout_for(SLOTS as nat, Self::spec_bs())
        &&& self.layout.slot_bits + self.layout.gen_bits + self.layout.len_bits == HEADER_BITS
        &&& 1 <= self.layout.gen_bits <= MAX_GEN_BITS
        &&& SLOTS < pow2(self.layout.slot_bits as nat)
        &&& payload_capacity(Self::spec_bs()) < pow2(self.layout.len_bits as nat)
        &&& Self::spec_bs() <= u16::MAX
        &&& self.memory@.len() == CAPACITY
        &&& self.slots@.len() == SLOTS
    }

    proof fn lemma_block(&self, i: int)
        requires
            self.config_ok(),
            0 <= i < SLOTS,
        ensures
            i * Self::spec_bs() + Self::spec_bs() <= CAPACITY,
            0 <= i * Self::spec_bs(),
    {
        lemma_block_in_range(i, SLOTS as int, Self::spec_bs() as int, CAPACITY as int);
    }

    /// Creates an allocator with every slot free.
    pub fn new() -> (r: Self)
        requires
            0 < SLOTS <= MAX_SLOTS,
            config_fits(SLOTS as nat, (CAPACITY / SLOTS) as nat),
        ensures
            r.inv(),
            r.spec_block_size() == CAPACITY / SLOTS,
            r.spec_layout() == layout_for(SLOTS as nat, (CAPACITY / SLOTS) as nat),
            r.slots().len() == SLOTS,
            forall|i: int|
                0 <= i < SLOTS ==> (#[trigger] r.slots()[i]) == free_slot(0),
    {
        let layout = layout_for_config(SLOTS, CAPACITY / SLOTS);
        let memory: Vec<u8> = vec![0u8; CAPACITY];
        let mut slots: Vec<SlotMeta> = Vec::new();
        let mut i: usize = 0;
        while i < SLOTS
            invariant
                i <= SLOTS,
                slots@.len() == i,
                forall|k: int|
                    0 <= k < i ==> (#[trigger] slots@[k]).generation == 0 && slots@[k].size == 0
                        && !slots@[k].allocated && slots@[k].next_free == NONE_SLOT,
            decreases SLOTS - i,
        {
            slots.push(SlotMeta { generation: 0, size: 0, next_free: NONE_SLOT, allocated: false });
            i = i + 1;
        }
        let r = TinySlabAllocator {
            memory,
            slots,
            free_head: NONE_SLOT,
            used_count: 0,
            layout,
            free_list: Ghost(Seq::empty()),
        };
        proof {
            vstd::arithmetic::power2::lemma_pow2_pos(layout.gen_bits as nat);
            assert(bits_for(SLOTS as nat) >= 1);
            assert(layout.len_bits <= 14);
            vstd::arithmetic::power2::lemma2_to64();
            if layout.len_bits < 14 {
                vstd::arithmetic::power2::lemma_pow2_strictly_increases(layout.len_bits as nat, 14);
            }
            assert(r.view_seq() =~= Seq::new(
                SLOTS as nat,
                |i: int| SlotState { generation: 0, allocated: false, data: Seq::empty() },
            )) by {
                assert forall|i: int| 0 <= i < SLOTS implies r.slot_view(i) == SlotState {
                    generation: 0,
                    allocated: false,
                    data: Seq::empty(),
                } by {
                    r.lemma_block(i);
                    assert(r.slot_view(i).data =~= Seq::<u8>::empty());
                }
            }
            r.lemma_all_free_count();
        }
        r
    }

    proof fn lemma_all_free_count(&self)
        requires
            self.slots@.len() == SLOTS,
            forall|i: int| 0 <= i < SLOTS ==> !(#[trigger] self.slots@[i]).allocated,
        ensures
            count_allocated(self.view_seq()) == 0,
    {
        let v = self.view_seq();
        assert forall|i: int| 0 <= i < v.len() implies !(#[trigger] v[i].allocated) by {
            assert(!self.slots@[i].allocated);
        }
        lemma_count_bound(v);
    }

    /// Links every slot into the free list, in index order.
    #[verifier::spinoff_prover]
    #[verifier::rlimit(40)]
    fn init_free_list(&mut self)
        requires
            old(self).config_ok(),
            old(self).meta_ok(),
            forall|i: int| 0 <= i < SLOTS ==> !(#[trigger] old(self).slots@[i]).allocated,
        ensures
            final(self).config_ok(),
            final(self).meta_ok(),
            final(self).free_list_ok(),
            final(self).free_list@.len() == SLOTS,
            forall|i: int| 0 <= i < SLOTS ==> #[trigger] final(self).free_list@.contains(i as u8),
            final(self).view_seq() == old(self).view_seq(),
            final(self).used_count == old(self).used_count,
    {
        let mut i: usize = 0;
        while i < SLOTS
            invariant
                self.config_ok(),
                self.meta_ok(),
                i <= SLOTS,
                self.used_count == old(self).used_count,
                self.memory == old(self).memory,
                self.layout == old(self).layout,
                forall|k: int|
                    0 <= k < SLOTS ==> {
                        &&& (#[trigger] self.slots@[k]).generation == old(self).slots@[k].generation
                        &&& self.slots@[k].size == old(self).slots@[k].size
                        &&& self.slots@[k].allocated == old(self).slots@[k].allocated
                    },
                forall|k: int|
                    0 <= k < i ==> (#[trigger] self.slots@[k]).next_free == if k + 1 < SLOTS {
                        (k + 1) as u8
                    } else {
                        NONE_SLOT
                    },
            decreases SLOTS - i,
        {
            let mut m = self.slots[i];
            m.next_free = if i + 1 < SLOTS {
                (i + 1) as u8
            } else {
                NONE_SLOT
            };
            self.slots.set(i, m);
            i = i + 1;
        }
        self.free_head = 0;
        self.free_list = Ghost(Seq::new(SLOTS as nat, |k: int| k as u8));
        proof {
            let fl = self.free_list@;
            assert forall|a: int, b: int| 0 <= a < fl.len() && 0 <= b < fl.len() && a != b implies fl[a]
                != fl[b] by {}
            assert forall|i: int| 0 <= i < SLOTS implies #[trigger] self.free_list@.contains(i as u8) by {
                assert(fl[i] == i as u8);
            }
            assert(self.view_seq() =~= old(self).view_seq()) by {
                assert forall|k: int| 0 <= k < SLOTS implies self.slot_view(k) == old(
                    self,
                ).slot_view(k) by {}
            }
        }
    }
}

impl<const CAPACITY: usize, const SLOTS: usize> Allocator for TinySlabAllocator<CAPACITY, SLOTS> {
    closed spec fn slots(&self) -> Seq<SlotState> {
        self.view_seq()
    }

    closed spec fn spec_block_size(&self) -> nat {
        Self::spec_bs()
    }

    closed spec fn spec_layout(&self) -> BitLayout {
        self.layout
    }

    closed spec fn inv(&self) -> bool {
        &&& self.config_ok()
        &&& self.meta_ok()
        &&& self.free_list_ok()
        &&& self.free_list_complete()
        &&& self.used_count == count_allocated(self.view_seq())
    }

    proof fn lemma_inv(&self) {
        let v = self.view_seq();
        assert forall|i: int| 0 <= i < v.len() implies {
            &&& #[trigger] v[i].generation < pow2(self.layout.gen_bits as nat)
            &&& v[i].allocated ==> v[i].data.len() <= Self::spec_bs()
            &&& !v[i].allocated ==> v[i].data.len() == 0
        } by {
            self.lemma_block(i);
        }
    }

    #[verifier::spinoff_prover]
    #[verifier::rlimit(40)]
    fn alloc_uninit(&mut self, len: usize) -> (r: Option<Handle>) {
        if len > CAPACITY / SLOTS {
            return None;
        }
        if self.used_count == 0 && self.free_head == NONE_SLOT {
            proof {
                lemma_count_bound(self.view_seq());
                assert forall|i: int| 0 <= i < SLOTS implies !(#[trigger] self.slots@[i]).allocated by {
                    assert(!self.view_seq()[i].allocated);
                }
            }
            self.init_free_list();
            assert(self.free_list_complete());
        }
        if self.free_head == NONE_SLOT {
            proof {
                assert forall|i: int| 0 <= i < self.view_seq().len() implies #[trigger] self.view_seq()[i].allocated by {
                    if !self.slots@[i].allocated {
                        assert(self.free_list@.contains(i as u8));
                    }
                }
            }
            return None;
        }
        let ghost old_view = self.view_seq();
        let ghost pre_slots = self.slots@;
        let ghost fl = self.free_list@;
        let slot = self.free_head;
        let mut m = self.slots[slot as usize];
        let next = m.next_free;
        let generation = m.generation;
        proof {
            assert(fl[0] == slot);
            assert(!old_view[slot as int].allocated);
            lemma_count_bound(old_view);
            lemma_count_update(
                old_view,
                slot as int,
                SlotState {
                    generation,
                    allocated: true,
                    data: self.memory@.subrange(
                        slot * Self::spec_bs(),
                        slot * Self::spec_bs() + len,
                    ),
                },
            );
            self.lemma_block(slot as int);
        }
        m.size = len as u16;
        m.next_free = NONE_SLOT;
        m.allocated = true;
        self.slots.set(slot as usize, m);
        self.free_head = next;
        self.free_list = Ghost(fl.drop_first());
        self.used_count = self.used_count + 1;
        proof {
            let new_state = SlotState {
                generation,
                allocated: true,
                data: self.memory@.subrange(slot * Self::spec_bs(), slot * Self::spec_bs() + len),
            };
            assert(self.view_seq() =~= old_view.update(slot as int, new_state)) by {
                assert forall|k: int| 0 <= k < SLOTS implies #[trigger] self.view_seq()[k]
                    == old_view.update(slot as int, new_state)[k] by {
                    if k != slot {
                        assert(self.slots@[k] == pre_slots[k]);
                    }
                }
            }
            let nfl = self.free_list@;
            assert forall|k: int| 0 <= k < nfl.len() implies #[trigger] nfl[k] < SLOTS
                && !self.slots@[nfl[k] as int].allocated by {
                assert(nfl[k] == fl[k + 1]);
                assert(fl[k + 1] != fl[0]);
            }
            assert forall|k: int| 0 <= k < nfl.len() - 1 implies self.slots@[#[trigger] nfl[k] as int].next_free
                == nfl[k + 1] by {
                assert(nfl[k] == fl[k + 1]);
                assert(fl[k + 1] != fl[0]);
            }
            if nfl.len() > 0 {
                assert(fl[1] != fl[0]);
                assert(nfl.last() == fl.last());
                assert(fl.last() != fl[0]);
            }
            assert forall|i: int| 0 <= i < SLOTS && !(#[trigger] self.slots@[i]).allocated implies nfl.contains(
                i as u8,
            ) by {
                assert(i != slot);
                assert(self.slots@[i] == pre_slots[i]);
                let k = choose|k: int| 0 <= k < fl.len() && fl[k] == i as u8;
                assert(k != 0);
                assert(nfl[k - 1] == i as u8);
            }
        }
        Some(Handle::new(slot as u16, generation))
    }

    fn get(&self, handle: Handle) -> (r: Option<&[u8]>) {
        if handle.slot as usize >= SLOTS {
            return None;
        }
        let slot = handle.slot as usize;
        let m = self.slots[slot];
        if m.generation != handle.generation || !m.allocated {
            return None;
        }
        let bs = CAPACITY / SLOTS;
        proof {
            self.lemma_block(slot as int);
            vstd::arithmetic::mul::lemma_mul_upper_bound(slot as int, SLOTS as int, bs as int, bs as int);
        }
        let start = slot * bs;
        let end = start + m.size as usize;
        Some(vstd::slice::slice_subrange(self.memory.as_slice(), start, end))
    }

    #[verifier::spinoff_prover]
    #[verifier::rlimit(40)]
    fn set_byte(&mut self, handle: Handle, index: usize, value: u8) -> (r: bool) {
        if handle.slot as usize >= SLOTS {
            return false;
        }
        let slot = handle.slot as usize;
        let m = self.slots[slot];
        proof {
            self.lemma_block(slot as int);
        }
        if m.generation != handle.generation || !m.allocated || index >= m.size as usize {
            return false;
        }
        let bs = CAPACITY / SLOTS;
        let ghost old_view = self.view_seq();
        let pos = slot * bs + index;
        self.memory.set(pos, value);
        proof {
            let new_state = SlotState {
                generation: handle.generation,
                allocated: true,
                data: old_view[slot as int].data.update(index as int, value),
            };
            assert forall|k: int| 0 <= k < SLOTS implies #[trigger] self.view_seq()[k] == old_view.update(
                slot as int,
                new_state,
            )[k] by {
                self.lemma_block(k);
                if k != slot {
                    assert(self.slot_view(k).data =~= old(self).slot_view(k).data) by {
                        assert forall|j: int| 0 <= j < self.slots@[k].size implies #[trigger] self.slot_view(k).data[j]
                            == old(self).slot_view(k).data[j] by {
                            lemma_blocks_disjoint(k, slot as int, bs as int, j, index as int);
                        }
                    }
                } else {
                    assert(self.slot_view(k).data =~= new_state.data);
                }
            }
            assert(self.view_seq() =~= old_view.update(slot as int, new_state));
            lemma_count_update(old_view, slot as int, new_state);
        }
        true
    }

    #[verifier::spinoff_prover]
    #[verifier::rlimit(40)]
    fn free(&mut self, handle: Handle) -> (r: bool) {
        if handle.slot as usize >= SLOTS {
            return false;
        }
        let slot = handle.slot as usize;
        let mut m = self.slots[slot];
        if m.generation != handle.generation || !m.allocated {
            return false;
        }
        let ghost old_view = self.view_seq();
        let ghost fl = self.free_list@;
        let generation = advance_generation(m.generation, &self.layout);
        let new_state = Ghost(
            SlotState { generation, allocated: false, data: Seq::<u8>::empty() },
        );
        proof {
            lemma_count_update(old_view, slot as int, new_state@);
            assert(!fl.contains(slot as u8));
        }
        m.generation = generation;
        m.size = 0;
        m.next_free = self.free_head;
        m.allocated = false;
        self.slots.set(slot, m);
        self.free_head = slot as u8;
        self.free_list = Ghost(seq![slot as u8] + fl);
        self.used_count = self.used_count - 1;
        proof {
            assert(self.view_seq() =~= old_view.update(slot as int, new_state@)) by {
                assert forall|k: int| 0 <= k < SLOTS implies #[trigger] self.view_seq()[k]
                    == old_view.update(slot as int, new_state@)[k] by {
                    if k != slot {
                        assert(self.slots@[k] == old(self).slots@[k]);
                    } else {
                        self.lemma_block(k);
                        assert(self.slot_view(k).data =~= Seq::<u8>::empty());
                    }
                }
            }
            let nfl = self.free_list@;
            assert forall|k: int| 0 <= k < nfl.len() implies #[trigger] nfl[k] < SLOTS
                && !self.slots@[nfl[k] as int].allocated by {
                if k > 0 {
                    assert(nfl[k] == fl[k - 1]);
                }
            }
            assert forall|k: int| 0 <= k < nfl.len() - 1 implies self.slots@[#[trigger] nfl[k] as int].next_free
                == nfl[k + 1] by {
                if k > 0 {
                    assert(nfl[k] == fl[k - 1]);
                    assert(fl[k - 1] != slot as u8);
                }
            }
            assert(nfl.no_duplicates()) by {
                assert forall|a: int, b: int| 0 <= a < nfl.len() && 0 <= b < nfl.len() && a != b implies nfl[a]
                    != nfl[b] by {
                    if a > 0 && b > 0 {
                        assert(nfl[a] == fl[a - 1]);
                        assert(nfl[b] == fl[b - 1]);
                    } else if a == 0 {
                        assert(nfl[b] == fl[b - 1]);
                    } else {
                        assert(nfl[a] == fl[a - 1]);
                    }
                }
            }
            if fl.len() > 0 {
                assert(nfl.last() == fl.last());
            }
            assert(self.used_count != 0 || count_allocated(old_view) > 0);
            assert forall|i: int| 0 <= i < SLOTS && !(#[trigger] self.slots@[i]).allocated implies nfl.contains(
                i as u8,
            ) by {
                if i == slot {
                    assert(nfl[0] == i as u8);
                } else {
                    assert(old(self).slots@[i] == self.slots@[i]);
                    assert(old_view[slot as int].allocated);
                    assert(fl.contains(i as u8)) by {
                        if !(forall|j: int|
                            0 <= j < SLOTS && !(#[trigger] old(self).slots@[j]).allocated
                                ==> fl.contains(j as u8)) {
                            lemma_count_bound(old_view);
                        }
                    }
                    let k = choose|k: int| 0 <= k < fl.len() && fl[k] == i as u8;
                    assert(nfl[k + 1] == i as u8);
                }
            }
        }
        true
    }

    fn len(&self) -> (r: usize) {
        self.used_count as usize
    }

    fn capacity(&self) -> (r: usize) {
        SLOTS
    }

    fn block_size(&self) -> (r: usize) {
        CAPACITY / SLOTS
    }

    fn bit_layout(&self) -> (r: BitLayout) {
        self.layout
    }

    #[verifier::spinoff_prover]
    #[verifier::rlimit(40)]
    fn clear(&mut self) {
        let ghost old_view = self.view_seq();
        let mut i: usize = 0;
        while i < SLOTS
            invariant
                self.config_ok(),
                self.meta_ok(),
                i <= SLOTS,
                self.layout == old(self).layout,
                self.memory == old(self).memory,
                old_view == old(self).view_seq(),
                old(self).config_ok(),
                old(self).meta_ok(),
                forall|k: int|
                    i <= k < SLOTS ==> #[trigger] self.slots@[k] == old(self).slots@[k],
                forall|k: int|
                    0 <= k < i ==> {
                        &&& (#[trigger] self.slots@[k]).generation == next_gen(
                            old(self).slots@[k].generation,
                            self.layout,
                        )
                        &&& self.slots@[k].size == 0
                        &&& !self.slots@[k].allocated
                        &&& self.slots@[k].next_free == NONE_SLOT
                    },
            decreases SLOTS - i,
        {
            let mut m = self.slots[i];
            m.generation = advance_generation(m.generation, &self.layout);
            m.size = 0;
            m.next_free = NONE_SLOT;
            m.allocated = false;
            self.slots.set(i, m);
            i = i + 1;
        }
        self.used_count = 0;
        self.free_head = NONE_SLOT;
        self.free_list = Ghost(Seq::empty());
        proof {
            self.lemma_all_free_count();
            assert forall|k: int| 0 <= k < old_view.len() implies #[trigger] self.view_seq()[k]
                == SlotState {
                generation: next_gen(old_view[k].generation, self.layout),
                allocated: false,
                data: Seq::empty(),
            } by {
                self.lemma_block(k);
                assert(self.slot_view(k).data =~= Seq::<u8>::empty());
            }
        }
    }
}

} // verus!
