//! A simple allocator with one separately held block per slot and a
//! round-robin search for free slots, useful as a second backend in tests.
use crate::allocator::{
    advance_generation, bits_for, count_allocated, free_slot, layout_for, layout_for_config,
    lemma_count_bound, lemma_count_update, next_gen, payload_capacity, Allocator, BitLayout, Handle,
    SlotState, HEADER_BITS, MAX_GEN_BITS,
};
use vstd::arithmetic::power2::pow2;
use vstd::prelude::*;

verus! {

/// Number of slots.
pub const NAIVE_SLOTS: usize = 64;

/// Size of each block in bytes.
pub const NAIVE_BLOCK_SIZE: usize = 128;

struct NaiveSlot {
    data: Vec<u8>,
    len: usize,
    generation: u8,
    used: bool,
}

/// An allocator of `NAIVE_SLOTS` blocks of `NAIVE_BLOCK_SIZE` bytes, each
/// held on its own.
pub struct NaiveAllocator {
    slots: Vec<NaiveSlot>,
    next_slot: u16,
    layout: BitLayout,
}

impl NaiveAllocator {
    closed spec fn slot_view(&self, i: int) -> SlotState {
        let s = self.slots@[i];
        SlotState { generation: s.generation, allocated: s.used, data: s.data@.subrange(0, s.len as int) }
    }

    closed spec fn view_seq(&self) -> Seq<SlotState> {
        Seq::new(NAIVE_SLOTS as nat, |i: int| self.slot_view(i))
    }

    /// An allocator with every slot free.
    pub fn new() -> (r: Self)
        ensures
            r.inv(),
            r.slots().len() == NAIVE_SLOTS,
            r.spec_block_size() == NAIVE_BLOCK_SIZE,
            forall|i: int| 0 <= i < NAIVE_SLOTS ==> (#[trigger] r.slots()[i]) == free_slot(0),
    {
        proof {
            reveal_with_fuel(bits_for, 8);
            assert(bits_for(64) == 7);
            assert(bits_for(126) == 7);
        }
        let layout = layout_for_config(NAIVE_SLOTS, NAIVE_BLOCK_SIZE);
        let mut slots: Vec<NaiveSlot> = Vec::new();
        let mut i: usize = 0;
        while i < NAIVE_SLOTS
            invariant
                i <= NAIVE_SLOTS,
                slots@.len() == i,
                forall|k: int|
                    0 <= k < i ==> (#[trigger] slots@[k]).data@.len() == NAIVE_BLOCK_SIZE && slots@[k].len == 0
                        && slots@[k].generation == 0 && !slots@[k].used,
            decreases NAIVE_SLOTS - i,
        {
            slots.push(NaiveSlot { data: vec![0u8; NAIVE_BLOCK_SIZE], len: 0, generation: 0, used: false });
            i = i + 1;
        }
        let r = NaiveAllocator { slots, next_slot: 0, layout };
        proof {
            vstd::arithmetic::power2::lemma_pow2_pos(layout.gen_bits as nat);
            assert forall|i: int| 0 <= i < NAIVE_SLOTS implies (#[trigger] r.view_seq()[i]) == free_slot(0) by {
                assert(r.slot_view(i).data =~= Seq::<u8>::empty());
            }
            lemma_count_bound(r.view_seq());
        }
        r
    }

    /// A free slot, searching round-robin from the slot after the last one
    /// handed out.
    #[verifier::spinoff_prover]
    #[verifier::rlimit(40)]
    fn find_free_slot(&mut self) -> (r: Option<u16>)
        requires
            old(self).inv(),
        ensures
            final(self).inv(),
            final(self).view_seq() == old(self).view_seq(),
            final(self).layout == old(self).layout,
            match r {
                Some(s) => s < NAIVE_SLOTS && !old(self).slots@[s as int].used,
                None => forall|i: int| 0 <= i < NAIVE_SLOTS ==> (#[trigger] old(self).slots@[i]).used,
            },
    {
        let mut i: usize = 0;
        while i < NAIVE_SLOTS
            invariant
                self.inv(),
                *self == *old(self),
                i <= NAIVE_SLOTS,
                forall|k: int| 0 <= k < i ==> (#[trigger] self.slots@[((self.next_slot + k) % 64) as int]).used,
            decreases NAIVE_SLOTS - i,
        {
            let idx = (self.next_slot as usize + i) % NAIVE_SLOTS;
            if !self.slots[idx].used {
                self.next_slot = (idx + 1) as u16;
                proof {
                    assert(self.view_seq() =~= old(self).view_seq());
                }
                return Some(idx as u16);
            }
            i = i + 1;
        }
        proof {
            assert forall|j: int| 0 <= j < NAIVE_SLOTS implies (#[trigger] old(self).slots@[j]).used by {
                let k = (j - self.next_slot) % 64;
                assert(0 <= k < 64);
                assert((self.next_slot + k) % 64 == j) by {
                    vstd::arithmetic::div_mod::lemma_mod_add_multiples_vanish(j - self.next_slot, 64);
                    vstd::arithmetic::div_mod::lemma_fundamental_div_mod(j - self.next_slot, 64);
                    vstd::arithmetic::div_mod::lemma_mod_multiples_vanish((j - self.next_slot) / 64, j, 64);
                    vstd::arithmetic::div_mod::lemma_small_mod(j as nat, 64);
                }
            }
        }
        None
    }
}

impl Allocator for NaiveAllocator {
    closed spec fn slots(&self) -> Seq<SlotState> {
        self.view_seq()
    }

    closed spec fn spec_block_size(&self) -> nat {
        NAIVE_BLOCK_SIZE as nat
    }

    closed spec fn spec_layout(&self) -> BitLayout {
        self.layout
    }

    closed spec fn inv(&self) -> bool {
        &&& self.slots@.len() == NAIVE_SLOTS
        &&& self.next_slot <= NAIVE_SLOTS
        &&& self.layout == layout_for(NAIVE_SLOTS as nat, NAIVE_BLOCK_SIZE as nat)
        &&& self.layout.slot_bits + self.layout.gen_bits + self.layout.len_bits == HEADER_BITS
        &&& 1 <= self.layout.gen_bits <= MAX_GEN_BITS
        &&& NAIVE_SLOTS < pow2(self.layout.slot_bits as nat)
        &&& payload_capacity(NAIVE_BLOCK_SIZE as nat) < pow2(self.layout.len_bits as nat)
        &&& forall|i: int|
            0 <= i < NAIVE_SLOTS ==> {
                &&& (#[trigger] self.slots@[i]).data@.len() == NAIVE_BLOCK_SIZE
                &&& self.slots@[i].len <= NAIVE_BLOCK_SIZE
                &&& self.slots@[i].generation < pow2(self.layout.gen_bits as nat)
                &&& !self.slots@[i].used ==> self.slots@[i].len == 0
            }
    }

    proof fn lemma_inv(&self) {
        let v = self.view_seq();
        assert forall|i: int| 0 <= i < v.len() implies {
            &&& #[trigger] v[i].generation < pow2(self.layout.gen_bits as nat)
            &&& v[i].allocated ==> v[i].data.len() <= NAIVE_BLOCK_SIZE
            &&& !v[i].allocated ==> v[i].data.len() == 0
        } by {
            assert(self.slots@[i].data@.len() == NAIVE_BLOCK_SIZE);
        }
    }

    #[verifier::spinoff_prover]
    #[verifier::rlimit(40)]
    fn alloc_uninit(&mut self, len: usize) -> (r: Option<Handle>) {
        if len > NAIVE_BLOCK_SIZE {
            return None;
        }
        let ghost v0 = self.view_seq();
        let idx = match self.find_free_slot() {
            Some(i) => i as usize,
            None => {
                proof {
                    assert forall|i: int| 0 <= i < v0.len() implies #[trigger] v0[i].allocated by {
                        assert(old(self).slots@[i].used);
                    }
                }
                return None;
            },
        };
        let ghost pre = self.slots@;
        let generation = self.slots[idx].generation;
        let mut slot = self.slots.remove(idx);
        slot.len = len;
        slot.used = true;
        self.slots.insert(idx, slot);
        proof {
            let ns = SlotState { generation, allocated: true, data: self.slot_view(idx as int).data };
            assert(self.slots@ =~= pre.update(idx as int, self.slots@[idx as int]));
            assert(self.view_seq() =~= v0.update(idx as int, ns)) by {
                assert forall|k: int| 0 <= k < NAIVE_SLOTS implies #[trigger] self.view_seq()[k] == v0.update(idx as int, ns)[k] by {
                    if k != idx {
                        assert(self.slots@[k] == pre[k]);
                    }
                }
            }
            lemma_count_update(v0, idx as int, ns);
        }
        Some(Handle::new(idx as u16, generation))
    }

    fn get(&self, handle: Handle) -> (r: Option<&[u8]>) {
        if handle.slot as usize >= NAIVE_SLOTS {
            return None;
        }
        let slot = &self.slots[handle.slot as usize];
        if !slot.used || slot.generation != handle.generation {
            return None;
        }
        Some(vstd::slice::slice_subrange(slot.data.as_slice(), 0, slot.len))
    }

    #[verifier::spinoff_prover]
    #[verifier::rlimit(40)]
    fn set_byte(&mut self, handle: Handle, index: usize, value: u8) -> (r: bool) {
        if handle.slot as usize >= NAIVE_SLOTS {
            return false;
        }
        let idx = handle.slot as usize;
        if !self.slots[idx].used || self.slots[idx].generation != handle.generation || index >= self.slots[idx].len {
            return false;
        }
        let ghost v0 = self.view_seq();
        let ghost pre = self.slots@;
        let mut slot = self.slots.remove(idx);
        slot.data.set(index, value);
        self.slots.insert(idx, slot);
        proof {
            let ns = SlotState { generation: handle.generation, allocated: true, data: v0[idx as int].data.update(index as int, value) };
            assert(self.slots@ =~= pre.update(idx as int, self.slots@[idx as int]));
            assert(self.slot_view(idx as int).data =~= ns.data);
            assert(self.view_seq() =~= v0.update(idx as int, ns)) by {
                assert forall|k: int| 0 <= k < NAIVE_SLOTS implies #[trigger] self.view_seq()[k] == v0.update(idx as int, ns)[k] by {
                    if k != idx {
                        assert(self.slots@[k] == pre[k]);
                    }
                }
            }
            lemma_count_update(v0, idx as int, ns);
        }
        true
    }

    #[verifier::spinoff_prover]
    #[verifier::rlimit(40)]
    fn free(&mut self, handle: Handle) -> (r: bool) {
        if handle.slot as usize >= NAIVE_SLOTS {
            return false;
        }
        let idx = handle.slot as usize;
        if !self.slots[idx].used || self.slots[idx].generation != handle.generation {
            return false;
        }
        let ghost v0 = self.view_seq();
        let ghost pre = self.slots@;
        let generation = advance_generation(self.slots[idx].generation, &self.layout);
        let mut slot = self.slots.remove(idx);
        slot.generation = generation;
        slot.used = false;
        slot.len = 0;
        self.slots.insert(idx, slot);
        proof {
            let ns = free_slot(generation);
            assert(self.slots@ =~= pre.update(idx as int, self.slots@[idx as int]));
            assert(self.slot_view(idx as int).data =~= Seq::<u8>::empty());
            assert(self.view_seq() =~= v0.update(idx as int, ns)) by {
                assert forall|k: int| 0 <= k < NAIVE_SLOTS implies #[trigger] self.view_seq()[k] == v0.update(idx as int, ns)[k] by {
                    if k != idx {
                        assert(self.slots@[k] == pre[k]);
                    }
                }
            }
        }
        true
    }

    fn len(&self) -> (r: usize) {
        let mut n: usize = 0;
        let mut i: usize = 0;
        let ghost v = self.view_seq();
        proof {
            assert(v.subrange(0, 0) =~= Seq::<SlotState>::empty());
        }
        while i < NAIVE_SLOTS
            invariant
                self.inv(),
                v == self.view_seq(),
                i <= NAIVE_SLOTS,
                n == count_allocated(v.subrange(0, i as int)),
                n <= i,
            decreases NAIVE_SLOTS - i,
        {
            proof {
                assert(v.subrange(0, i + 1).drop_last() =~= v.subrange(0, i as int));
            }
            if self.slots[i].used {
                n = n + 1;
            }
            i = i + 1;
        }
        proof {
            assert(v.subrange(0, NAIVE_SLOTS as int) =~= v);
        }
        n
    }

    fn capacity(&self) -> (r: usize) {
        NAIVE_SLOTS
    }

    fn block_size(&self) -> (r: usize) {
        NAIVE_BLOCK_SIZE
    }

    fn bit_layout(&self) -> (r: BitLayout) {
        self.layout
    }

    fn clear(&mut self) {
        let ghost v0 = self.view_seq();
        let mut i: usize = 0;
        while i < NAIVE_SLOTS
            invariant
                self.inv(),
                i <= NAIVE_SLOTS,
                self.layout == old(self).layout,
                v0 == old(self).view_seq(),
                old(self).inv(),
                forall|k: int| i <= k < NAIVE_SLOTS ==> #[trigger] self.slots@[k] == old(self).slots@[k],
                forall|k: int|
                    0 <= k < i ==> {
                        &&& (#[trigger] self.slots@[k]).generation == next_gen(old(self).slots@[k].generation, self.layout)
                        &&& !self.slots@[k].used
                        &&& self.slots@[k].len == 0
                    },
            decreases NAIVE_SLOTS - i,
        {
            let generation = advance_generation(self.slots[i].generation, &self.layout);
            let mut slot = self.slots.remove(i);
            slot.generation = generation;
            slot.used = false;
            slot.len = 0;
            self.slots.insert(i, slot);
            i = i + 1;
        }
        self.next_slot = 0;
        proof {
            assert forall|k: int| 0 <= k < v0.len() implies #[trigger] self.view_seq()[k] == free_slot(
                next_gen(v0[k].generation, self.layout),
            ) by {
                assert(self.slot_view(k).data =~= Seq::<u8>::empty());
            }
        }
    }
}

} // verus!
