//! A growable byte buffer stored as a singly-linked chain of allocator blocks.
//!
//! The buffer holds only handles; the allocator passed to each call owns the
//! bytes. Each block starts with a packed header (see `header`) naming the
//! next block and the number of payload bytes in this one.
use crate::allocator::{
    all_allocated, count_allocated, handle_live, lemma_count_bound, lemma_count_update,
    model_ok, payload_capacity, Allocator, BitLayout, Handle, SlotState,
};
use crate::header::{
    data_capacity, field_gen, field_len, field_slot, fields_fit, get_len, get_next_handle,
    header_word, layout_ok, lemma_pack_fields, lemma_unpack_pack, next_of, none_slot, pack,
    pack_header, read_header, set_len, set_next_gen, set_next_slot, NONE_GEN,
};
use vstd::arithmetic::power2::{lemma_pow2_pos, pow2};
use vstd::prelude::*;

verus! {

/// Why a byte-buffer operation failed.
#[derive(Debug, Clone, Copy, PartialEq, Eq, Structural)]
pub enum ByteBufferError {
    /// A handle of the buffer's own chain did not resolve: the buffer was
    /// used with another allocator than the one that holds its blocks.
    Uninitialized,
    /// The allocator has no free block, or its blocks cannot hold a header
    /// and a byte.
    AllocationFailed,
    /// The buffer reached its length limit.
    Full,
}

/// Largest number of bytes a buffer records (its length is a `u16`).
pub const MAX_BUFFER_LEN: u16 = 65535;

/// The bytes of the allocation `h`.
pub open spec fn block_of(slots: Seq<SlotState>, h: Handle) -> Seq<u8> {
    slots[h.slot as int].data
}

/// The payload length recorded in the header of block `h`.
pub open spec fn chunk_len(slots: Seq<SlotState>, h: Handle, l: BitLayout) -> nat {
    field_len(header_word(block_of(slots, h)), l)
}

/// The block that block `h` links to.
pub open spec fn link_of(slots: Seq<SlotState>, h: Handle, l: BitLayout) -> Option<Handle> {
    next_of(header_word(block_of(slots, h)), l)
}

/// The payload bytes of block `h`.
pub open spec fn payload(slots: Seq<SlotState>, h: Handle, l: BitLayout) -> Seq<u8> {
    block_of(slots, h).subrange(2, 2 + chunk_len(slots, h, l) as int)
}

/// The payloads of the blocks of `chain`, in order.
pub open spec fn chain_bytes(slots: Seq<SlotState>, chain: Seq<Handle>, l: BitLayout) -> Seq<u8>
    decreases chain.len(),
{
    if chain.len() == 0 {
        Seq::empty()
    } else {
        chain_bytes(slots, chain.drop_last(), l) + payload(slots, chain.last(), l)
    }
}

/// `chain` is a list of distinct live blocks of `bs` bytes, each header
/// linking to the next block and the last one linking nowhere.
pub open spec fn chain_ok(slots: Seq<SlotState>, chain: Seq<Handle>, l: BitLayout, bs: nat) -> bool {
    &&& forall|i: int|
        0 <= i < chain.len() ==> {
            &&& handle_live(slots, #[trigger] chain[i])
            &&& block_of(slots, chain[i]).len() == bs
            &&& 2 + chunk_len(slots, chain[i], l) <= bs
        }
    &&& forall|i: int, j: int|
        0 <= i < chain.len() && 0 <= j < chain.len() && i != j ==> (#[trigger] chain[i]).slot != (
        #[trigger] chain[j]).slot
    &&& forall|i: int|
        0 <= i < chain.len() - 1 ==> link_of(slots, #[trigger] chain[i], l) == Some(chain[i + 1])
    &&& chain.len() > 0 ==> link_of(slots, chain.last(), l) is None
}

/// Every block of `chain` but the last holds a full payload, and the last
/// holds at least one byte.
pub open spec fn packed(slots: Seq<SlotState>, chain: Seq<Handle>, l: BitLayout, bs: nat) -> bool {
    &&& forall|i: int| 0 <= i < chain.len() - 1 ==> chunk_len(slots, #[trigger] chain[i], l) == payload_capacity(bs)
    &&& chain.len() > 0 ==> chunk_len(slots, chain.last(), l) >= 1
}

/// Slots outside `owned` that were allocated keep their state.
pub open spec fn frame(old: Seq<SlotState>, new: Seq<SlotState>, owned: Set<u16>) -> bool {
    &&& new.len() == old.len()
    &&& forall|s: u16|
        s < old.len() && old[s as int].allocated && !owned.contains(s) ==> #[trigger] new[s as int]
            == old[s as int]
}

/// Every slot in `new` is in `old` or was free in `slots`.
pub open spec fn owned_growth(old: Set<u16>, new: Set<u16>, slots: Seq<SlotState>) -> bool {
    forall|s: u16| #[trigger] new.contains(s) ==> old.contains(s) || (s < slots.len() && !slots[s as int].allocated)
}

/// Number of free slots.
pub open spec fn free_slots(slots: Seq<SlotState>) -> nat {
    (slots.len() - count_allocated(slots)) as nat
}

/// The slots holding the blocks of `chain`.
pub open spec fn slots_of(chain: Seq<Handle>) -> Set<u16> {
    Set::new(|s: u16| exists|i: int| 0 <= i < chain.len() && (#[trigger] chain[i]).slot == s)
}

/// Blocks whose state did not change keep their payloads and links.
pub proof fn lemma_chain_same(
    s0: Seq<SlotState>,
    s1: Seq<SlotState>,
    chain: Seq<Handle>,
    l: BitLayout,
    bs: nat,
)
    requires
        forall|i: int| 0 <= i < chain.len() ==> s1[(#[trigger] chain[i]).slot as int] == s0[chain[i].slot as int],
        forall|i: int| 0 <= i < chain.len() ==> (#[trigger] chain[i]).slot < s0.len(),
        s1.len() == s0.len(),
    ensures
        chain_bytes(s1, chain, l) == chain_bytes(s0, chain, l),
        chain_ok(s0, chain, l, bs) ==> chain_ok(s1, chain, l, bs),
    decreases chain.len(),
{
    if chain.len() > 0 {
        let c = chain.drop_last();
        assert forall|i: int| 0 <= i < c.len() implies s1[(#[trigger] c[i]).slot as int] == s0[c[i].slot as int] && c[i].slot < s0.len() by {
            assert(c[i] == chain[i]);
        }
        lemma_chain_same(s0, s1, c, l, bs);
        assert(s1[chain.last().slot as int] == s0[chain.last().slot as int]);
    }
    if chain_ok(s0, chain, l, bs) {
        assert forall|i: int| 0 <= i < chain.len() implies {
            &&& handle_live(s1, #[trigger] chain[i])
            &&& block_of(s1, chain[i]).len() == bs
            &&& 2 + chunk_len(s1, chain[i], l) <= bs
        } by {
            assert(s1[chain[i].slot as int] == s0[chain[i].slot as int]);
        }
        assert forall|i: int| 0 <= i < chain.len() - 1 implies link_of(s1, #[trigger] chain[i], l) == Some(chain[i + 1]) by {
            assert(s1[chain[i].slot as int] == s0[chain[i].slot as int]);
        }
        if chain.len() > 0 {
            assert(s1[chain.last().slot as int] == s0[chain.last().slot as int]);
        }
    }
}

/// The bytes of a chain are the first block's payload followed by the rest.
pub proof fn lemma_chain_bytes_front(slots: Seq<SlotState>, chain: Seq<Handle>, l: BitLayout)
    requires
        chain.len() > 0,
    ensures
        chain_bytes(slots, chain, l) == payload(slots, chain[0], l) + chain_bytes(
            slots,
            chain.drop_first(),
            l,
        ),
    decreases chain.len(),
{
    if chain.len() == 1 {
        assert(chain.drop_first() =~= Seq::<Handle>::empty());
        assert(chain.drop_last() =~= Seq::<Handle>::empty());
        assert(chain_bytes(slots, chain.drop_last(), l) =~= Seq::<u8>::empty());
        assert(chain.last() == chain[0]);
        assert(chain_bytes(slots, chain.drop_first(), l) =~= Seq::<u8>::empty());
        assert(chain_bytes(slots, chain, l) =~= payload(slots, chain[0], l));
    } else {
        let c = chain.drop_last();
        lemma_chain_bytes_front(slots, c, l);
        assert(c.drop_first() =~= chain.drop_first().drop_last());
        assert(chain.drop_first().last() == chain.last());
        assert(c[0] == chain[0]);
        assert(chain_bytes(slots, chain, l) =~= payload(slots, chain[0], l) + chain_bytes(
            slots,
            chain.drop_first(),
            l,
        ));
    }
}

/// `block` with its first two bytes replaced by the header word `meta`.
pub open spec fn with_header(block: Seq<u8>, meta: nat) -> Seq<u8> {
    block.update(0, (meta % 256) as u8).update(1, (meta / 256) as u8)
}

/// Replacing the header keeps the rest of the block and reads back.
pub proof fn lemma_with_header(block: Seq<u8>, meta: nat)
    requires
        block.len() >= 2,
        meta < 0x10000,
    ensures
        header_word(with_header(block, meta)) == meta,
        with_header(block, meta).len() == block.len(),
        forall|k: int| 2 <= k < block.len() ==> #[trigger] with_header(block, meta)[k] == block[k],
{
}

/// `slots` with the block of `h` replaced by `data`, `h` staying live.
pub open spec fn with_block(slots: Seq<SlotState>, h: Handle, data: Seq<u8>) -> Seq<SlotState> {
    slots.update(h.slot as int, SlotState { generation: h.generation, allocated: true, data })
}

/// Writes the header word `meta` into the first two bytes of block `h`.
fn write_header<A: Allocator>(arena: &mut A, h: Handle, meta: u16)
    requires
        old(arena).inv(),
        handle_live(old(arena).slots(), h),
        block_of(old(arena).slots(), h).len() >= 2,
    ensures
        final(arena).inv(),
        final(arena).spec_block_size() == old(arena).spec_block_size(),
        final(arena).spec_layout() == old(arena).spec_layout(),
        final(arena).slots() == with_block(
            old(arena).slots(),
            h,
            with_header(block_of(old(arena).slots(), h), meta as nat),
        ),
        header_word(block_of(final(arena).slots(), h)) == meta,
{
    let ghost s0 = arena.slots();
    let lo = (meta % 256) as u8;
    let hi = (meta / 256) as u8;
    let ok0 = arena.set_byte(h, 0, lo);
    let ok1 = arena.set_byte(h, 1, hi);
    proof {
        assert(ok0 && ok1);
        lemma_with_header(block_of(s0, h), meta as nat);
        assert(arena.slots() =~= with_block(s0, h, with_header(block_of(s0, h), meta as nat)));
    }
}

/// The header word of a block that links nowhere and holds `len` bytes.
pub open spec fn end_header(len: nat, l: BitLayout) -> nat {
    pack(none_slot(l), len, NONE_GEN as nat, l)
}

/// A block with header `end_header(len)` links nowhere and holds `len`
/// bytes.
proof fn lemma_end_header(len: nat, l: BitLayout)
    requires
        layout_ok(l),
        len < pow2(l.len_bits as nat),
        1 <= l.gen_bits,
    ensures
        field_len(end_header(len, l), l) == len,
        next_of(end_header(len, l), l) is None,
        end_header(len, l) < 0x10000,
{
    lemma_pow2_pos(l.slot_bits as nat);
    lemma_pow2_pos(l.gen_bits as nat);
    lemma_pack_fields(none_slot(l), len, NONE_GEN as nat, l);
}

/// A header linking to `next` and holding `len` bytes names `next`.
proof fn lemma_link_header(next: Handle, len: nat, l: BitLayout, nslots: nat)
    requires
        layout_ok(l),
        next.slot < nslots,
        nslots < pow2(l.slot_bits as nat),
        len < pow2(l.len_bits as nat),
        next.generation < pow2(l.gen_bits as nat),
    ensures
        field_len(pack(next.slot as nat, len, next.generation as nat, l), l) == len,
        next_of(pack(next.slot as nat, len, next.generation as nat, l), l) == Some(next),
        pack(next.slot as nat, len, next.generation as nat, l) < 0x10000,
{
    lemma_pack_fields(next.slot as nat, len, next.generation as nat, l);
}

/// Replacing the last block of a chain by `nd`, a block of the same size
/// that still links nowhere, keeps the chain intact.
#[verifier::spinoff_prover]
#[verifier::rlimit(40)]
proof fn lemma_replace_last(s0: Seq<SlotState>, c0: Seq<Handle>, l: BitLayout, bs: nat, nd: Seq<u8>)
    requires
        chain_ok(s0, c0, l, bs),
        c0.len() > 0,
        nd.len() == bs,
        2 + field_len(header_word(nd), l) <= bs,
        next_of(header_word(nd), l) is None,
    ensures
        chain_ok(with_block(s0, c0.last(), nd), c0, l, bs),
        chain_bytes(with_block(s0, c0.last(), nd), c0, l) == chain_bytes(s0, c0.drop_last(), l)
            + nd.subrange(2, 2 + field_len(header_word(nd), l) as int),
        c0.len() > 1 ==> chunk_len(with_block(s0, c0.last(), nd), c0[0], l) == chunk_len(s0, c0[0], l),
        c0.len() == 1 ==> chunk_len(with_block(s0, c0.last(), nd), c0[0], l) == field_len(header_word(nd), l),
        forall|i: int| 0 <= i < c0.len() - 1 ==> #[trigger] with_block(s0, c0.last(), nd)[c0[i].slot as int] == s0[c0[i].slot as int],
{
    let t = c0.last();
    let s2 = with_block(s0, t, nd);
    let pre = c0.drop_last();
    assert(handle_live(s0, c0[c0.len() - 1]));
    assert forall|i: int| 0 <= i < pre.len() implies s2[(#[trigger] pre[i]).slot as int] == s0[pre[i].slot as int] && pre[i].slot < s0.len() by {
        assert(pre[i] == c0[i]);
        assert(c0[i].slot != c0[c0.len() - 1].slot);
        assert(handle_live(s0, c0[i]));
    }
    lemma_chain_same(s0, s2, pre, l, bs);
    assert forall|i: int| 0 <= i < c0.len() implies {
        &&& handle_live(s2, #[trigger] c0[i])
        &&& block_of(s2, c0[i]).len() == bs
        &&& 2 + chunk_len(s2, c0[i], l) <= bs
    } by {
        if i < c0.len() - 1 {
            assert(c0[i] == pre[i]);
            assert(handle_live(s0, c0[i]));
        }
    }
    assert forall|i: int| 0 <= i < c0.len() - 1 implies link_of(s2, #[trigger] c0[i], l) == Some(c0[i + 1]) by {
        assert(c0[i] == pre[i]);
        assert(handle_live(s0, c0[i]));
    }
    if c0.len() > 1 {
        assert(c0[0] == pre[0]);
    }
}

/// Linking a new block `n` holding `nd` after the last block of a chain,
/// whose block becomes `td` (the same payload, now linking to `n`), extends
/// the chain's bytes by the new block's payload.
#[verifier::spinoff_prover]
#[verifier::rlimit(40)]
proof fn lemma_push_block(
    s0: Seq<SlotState>,
    c0: Seq<Handle>,
    l: BitLayout,
    bs: nat,
    n: Handle,
    nd: Seq<u8>,
    td: Seq<u8>,
)
    requires
        chain_ok(s0, c0, l, bs),
        c0.len() > 0,
        n.slot < s0.len(),
        !s0[n.slot as int].allocated,
        bs >= 2,
        td.len() == bs,
        field_len(header_word(td), l) == chunk_len(s0, c0.last(), l),
        next_of(header_word(td), l) == Some(n),
        td.subrange(2, bs as int) == block_of(s0, c0.last()).subrange(2, bs as int),
        nd.len() == bs,
        2 + field_len(header_word(nd), l) <= bs,
        next_of(header_word(nd), l) is None,
    ensures
        chain_ok(with_block(with_block(s0, n, nd), c0.last(), td), c0.push(n), l, bs),
        chain_bytes(with_block(with_block(s0, n, nd), c0.last(), td), c0.push(n), l) == chain_bytes(s0, c0, l)
            + nd.subrange(2, 2 + field_len(header_word(nd), l) as int),
        chunk_len(with_block(with_block(s0, n, nd), c0.last(), td), c0[0], l) == chunk_len(s0, c0[0], l),
        forall|i: int| 0 <= i < c0.len() - 1 ==> #[trigger] with_block(with_block(s0, n, nd), c0.last(), td)[c0[i].slot as int] == s0[c0[i].slot as int],
        chunk_len(with_block(with_block(s0, n, nd), c0.last(), td), c0.last(), l) == chunk_len(s0, c0.last(), l),
        chunk_len(with_block(with_block(s0, n, nd), c0.last(), td), n, l) == field_len(header_word(nd), l),
{
    let t = c0.last();
    let s1 = with_block(s0, n, nd);
    let s2 = with_block(s1, t, td);
    let c = c0.push(n);
    let pre = c0.drop_last();
    assert(handle_live(s0, c0[c0.len() - 1]));
    assert(t.slot != n.slot);
    assert forall|i: int| 0 <= i < pre.len() implies s2[(#[trigger] pre[i]).slot as int] == s0[pre[i].slot as int] && pre[i].slot < s0.len() by {
        assert(pre[i] == c0[i]);
        assert(c0[i].slot != c0[c0.len() - 1].slot);
        assert(handle_live(s0, c0[i]));
    }
    lemma_chain_same(s0, s2, pre, l, bs);
    assert(payload(s2, t, l) =~= payload(s0, t, l)) by {
        let k = chunk_len(s0, t, l) as int;
        assert forall|j: int| 0 <= j < k implies payload(s2, t, l)[j] == payload(s0, t, l)[j] by {
            assert(td.subrange(2, bs as int)[j] == block_of(s0, t).subrange(2, bs as int)[j]);
        }
    }
    assert(c.drop_last() == c0);
    assert(chain_bytes(s2, c0, l) =~= chain_bytes(s0, c0, l)) by {
        assert(c0.drop_last() == pre);
    }
    assert forall|i: int| 0 <= i < c.len() implies {
        &&& handle_live(s2, #[trigger] c[i])
        &&& block_of(s2, c[i]).len() == bs
        &&& 2 + chunk_len(s2, c[i], l) <= bs
    } by {
        if i < c0.len() - 1 {
            assert(c[i] == c0[i]);
            assert(c0[i] == pre[i]);
            assert(handle_live(s0, c0[i]));
        }
    }
    assert forall|i: int, j: int| 0 <= i < c.len() && 0 <= j < c.len() && i != j implies (#[trigger] c[i]).slot != (#[trigger] c[j]).slot by {
        if i < c0.len() {
            assert(handle_live(s0, c0[i]));
            assert(c[i] == c0[i]);
        }
        if j < c0.len() {
            assert(handle_live(s0, c0[j]));
            assert(c[j] == c0[j]);
        }
    }
    assert forall|i: int| 0 <= i < c.len() - 1 implies link_of(s2, #[trigger] c[i], l) == Some(c[i + 1]) by {
        assert(c[i] == c0[i]);
        if i < c0.len() - 1 {
            assert(c0[i] == pre[i]);
            assert(handle_live(s0, c0[i]));
        }
    }
    if c0.len() > 1 {
        assert(c0[0] == pre[0]);
    }
}

/// Dropping the head block of a chain leaves an intact chain when the other
/// blocks keep their state.
proof fn lemma_drop_head(s0: Seq<SlotState>, s1: Seq<SlotState>, c: Seq<Handle>, l: BitLayout, bs: nat)
    requires
        chain_ok(s0, c, l, bs),
        c.len() > 0,
        s1.len() == s0.len(),
        forall|i: int| 1 <= i < c.len() ==> s1[(#[trigger] c[i]).slot as int] == s0[c[i].slot as int],
    ensures
        chain_ok(s1, c.drop_first(), l, bs),
        chain_bytes(s1, c.drop_first(), l) == chain_bytes(s0, c.drop_first(), l),
        c.len() > 1 ==> link_of(s0, c[0], l) == Some(c.drop_first()[0]),
        c.len() == 1 ==> link_of(s0, c[0], l) is None,
{
    let d = c.drop_first();
    assert forall|i: int| 0 <= i < d.len() implies s1[(#[trigger] d[i]).slot as int] == s0[d[i].slot as int] && d[i].slot < s0.len() by {
        assert(d[i] == c[i + 1]);
        assert(handle_live(s0, c[i + 1]));
    }
    lemma_chain_same(s0, s1, d, l, bs);
    assert(chain_ok(s0, d, l, bs)) by {
        assert forall|i: int| 0 <= i < d.len() implies {
            &&& handle_live(s0, #[trigger] d[i])
            &&& block_of(s0, d[i]).len() == bs
            &&& 2 + chunk_len(s0, d[i], l) <= bs
        } by {
            assert(d[i] == c[i + 1]);
        }
        assert forall|i: int, j: int| 0 <= i < d.len() && 0 <= j < d.len() && i != j implies (#[trigger] d[i]).slot != (#[trigger] d[j]).slot by {
            assert(d[i] == c[i + 1]);
            assert(d[j] == c[j + 1]);
        }
        assert forall|i: int| 0 <= i < d.len() - 1 implies link_of(s0, #[trigger] d[i], l) == Some(d[i + 1]) by {
            assert(d[i] == c[i + 1]);
            assert(d[i + 1] == c[i + 2]);
        }
        if d.len() > 0 {
            assert(d.last() == c.last());
        }
    }
    if c.len() > 1 {
        assert(d[0] == c[1]);
    }
}

/// A byte buffer: a chain of blocks from head to tail, the number of bytes
/// written to it and not yet released, an optional length limit, and the
/// number of bytes consumed from the front of the head block.
#[derive(Clone, Copy)]
pub struct ByteBuffer {
    head: Option<Handle>,
    tail: Option<Handle>,
    len: u16,
    max_len: Option<u16>,
    read_offset: u16,
    chain: Ghost<Seq<Handle>>,
}

impl ByteBuffer {
    /// The blocks of the buffer, head first.
    pub closed spec fn spec_chain(&self) -> Seq<Handle> {
        self.chain@
    }

    /// Bytes written and still held in blocks, read or not.
    pub closed spec fn spec_total(&self) -> nat {
        self.len as nat
    }

    /// Bytes of the head block already consumed.
    pub closed spec fn spec_read_offset(&self) -> nat {
        self.read_offset as nat
    }

    /// The length limit.
    pub closed spec fn spec_max_len(&self) -> Option<u16> {
        self.max_len
    }

    /// Bytes available to read.
    pub open spec fn spec_len(&self) -> nat {
        if self.spec_total() >= self.spec_read_offset() {
            (self.spec_total() - self.spec_read_offset()) as nat
        } else {
            0
        }
    }

    /// The slots that hold the buffer's blocks.
    pub open spec fn owned(&self) -> Set<u16> {
        slots_of(self.spec_chain())
    }

    /// The limit on the number of bytes held: the configured maximum, or
    /// what the length field holds.
    pub open spec fn limit(&self) -> nat {
        match self.spec_max_len() {
            Some(m) => m as nat,
            None => MAX_BUFFER_LEN as nat,
        }
    }

    /// Whether an append fails for the length limit.
    pub open spec fn is_full(&self) -> bool {
        self.spec_total() >= self.limit()
    }

    /// Payload bytes still free in the tail block.
    pub open spec fn tail_room(&self, slots: Seq<SlotState>, l: BitLayout, bs: nat) -> nat {
        let c = self.spec_chain();
        if c.len() == 0 {
            0
        } else {
            (payload_capacity(bs) - chunk_len(slots, c.last(), l)) as nat
        }
    }

    /// How many more bytes fit in the allocator: the free room of the tail
    /// block, and a full block's payload for each free slot.
    pub open spec fn room<A: Allocator>(&self, a: &A) -> nat {
        free_slots(a.slots()) * payload_capacity(a.spec_block_size()) + self.tail_room(
            a.slots(),
            a.spec_layout(),
            a.spec_block_size(),
        )
    }

    /// Structure of the buffer over `slots`, with no demand on the read
    /// offset beyond the length.
    closed spec fn shape_ok(&self, slots: Seq<SlotState>, l: BitLayout, bs: nat) -> bool {
        let c = self.chain@;
        &&& chain_ok(slots, c, l, bs)
        &&& self.head == if c.len() > 0 {
            Some(c[0])
        } else {
            None
        }
        &&& self.tail == if c.len() > 0 {
            Some(c.last())
        } else {
            None
        }
        &&& self.len == chain_bytes(slots, c, l).len()
        &&& self.read_offset <= self.len
        &&& packed(slots, c, l, bs)
    }

    /// The read offset lies inside the head block.
    closed spec fn offset_ok(&self, slots: Seq<SlotState>, l: BitLayout) -> bool {
        let c = self.chain@;
        &&& c.len() > 0 ==> self.read_offset < chunk_len(slots, c[0], l)
        &&& c.len() == 0 ==> self.read_offset == 0
    }

    /// The buffer's chain is intact in `a`.
    pub closed spec fn wf<A: Allocator>(&self, a: &A) -> bool {
        &&& a.inv()
        &&& model_ok(a.slots(), a.spec_block_size(), a.spec_layout())
        &&& self.shape_ok(a.slots(), a.spec_layout(), a.spec_block_size())
        &&& self.offset_ok(a.slots(), a.spec_layout())
    }

    /// The unread bytes of the buffer, as held in `a`.
    pub open spec fn contents<A: Allocator>(&self, a: &A) -> Seq<u8> {
        self.raw_contents(a.slots(), a.spec_layout())
    }

    /// The unread bytes are the chain's bytes from the read offset on.
    pub proof fn lemma_raw_contents(&self, slots: Seq<SlotState>, l: BitLayout)
        ensures
            self.raw_contents(slots, l) == chain_bytes(slots, self.spec_chain(), l).subrange(
                self.spec_read_offset() as int,
                self.spec_total() as int,
            ),
    {
    }

    /// What a well-formed buffer guarantees.
    pub proof fn lemma_wf<A: Allocator>(&self, a: &A)
        requires
            self.wf(a),
        ensures
            a.inv(),
            model_ok(a.slots(), a.spec_block_size(), a.spec_layout()),
            self.contents(a).len() == self.spec_len(),
            self.spec_read_offset() <= self.spec_total(),
            self.spec_total() <= MAX_BUFFER_LEN,
            self.spec_chain().len() == 0 <==> self.spec_total() == 0,
            self.spec_chain().len() == 0 ==> self.spec_len() == 0,
            self.spec_len() == 0 <==> self.spec_total() == 0,
            forall|s: u16| #[trigger] self.owned().contains(s) ==> s < a.slots().len() && a.slots()[s as int].allocated,
            chain_bytes(a.slots(), self.spec_chain(), a.spec_layout()).len() == self.spec_total(),
            chain_bytes(a.slots(), self.spec_chain(), a.spec_layout()).subrange(
                self.spec_read_offset() as int,
                self.spec_total() as int,
            ) == self.contents(a),
    {
        let c = self.chain@;
        let slots = a.slots();
        let l = a.spec_layout();
        if c.len() > 0 {
            lemma_chain_bytes_front(slots, c, l);
        }
        assert forall|s: u16| #[trigger] self.owned().contains(s) implies s < a.slots().len() && a.slots()[s as int].allocated by {
            let i = choose|i: int| 0 <= i < c.len() && (#[trigger] c[i]).slot == s;
            assert(handle_live(slots, c[i]));
        }
    }

    /// A well-formed buffer of `k` blocks holds more than `k - 1` full
    /// payloads and at most `k`, and has consumed less than one payload.
    pub proof fn lemma_block_count<A: Allocator>(&self, a: &A)
        requires
            self.wf(a),
        ensures
            ({
                let k = self.spec_chain().len() as int;
                let cap = payload_capacity(a.spec_block_size()) as int;
                &&& k > 0 ==> (k - 1) * cap < self.spec_total() && self.spec_total() <= k * cap
                &&& k > 0 ==> self.spec_read_offset() < cap
                &&& k == 0 ==> self.spec_total() == 0
                &&& k > 0 ==> (k - 2) * cap < self.spec_len()
                &&& self.spec_len() == 0 ==> k == 0
                &&& k > 0 ==> chunk_len(a.slots(), self.spec_chain()[0], a.spec_layout()) <= cap
                &&& k > 1 ==> chunk_len(a.slots(), self.spec_chain()[0], a.spec_layout()) == cap
                &&& k == 1 ==> chunk_len(a.slots(), self.spec_chain()[0], a.spec_layout()) == self.spec_total()
            }),
    {
        let c = self.chain@;
        let slots = a.slots();
        let l = a.spec_layout();
        let bs = a.spec_block_size();
        let cap = payload_capacity(bs) as int;
        if c.len() > 0 {
            let k = c.len() as int;
            let pre = c.drop_last();
            assert forall|i: int| 0 <= i < pre.len() implies chunk_len(slots, #[trigger] pre[i], l) == cap && 2 + chunk_len(slots, pre[i], l) <= block_of(slots, pre[i]).len() by {
                assert(pre[i] == c[i]);
            }
            lemma_full_len(slots, pre, l, cap as nat);
            assert(handle_live(slots, c[k - 1]));
            let last = chunk_len(slots, c.last(), l) as int;
            assert(self.len == (k - 1) * cap + last);
            assert(1 <= last <= cap);
            assert((k - 1) * cap < self.len && self.len <= k * cap) by (nonlinear_arith)
                requires
                    self.len == (k - 1) * cap + last,
                    1 <= last <= cap,
            ;
            assert(handle_live(slots, c[0]));
            assert(self.read_offset < cap);
            if k == 1 {
                assert(c[0] == c.last());
                assert(pre.len() == 0);
            }
            assert((k - 2) * cap < self.len - self.read_offset) by (nonlinear_arith)
                requires
                    (k - 1) * cap < self.len,
                    self.read_offset < cap,
            ;
        }
    }

    /// A buffer keeps its bytes across changes of the allocator that leave
    /// its own blocks alone.
    pub proof fn lemma_frame<A: Allocator>(&self, a0: &A, a1: &A, changed: Set<u16>)
        requires
            self.wf(a0),
            a1.inv(),
            a1.spec_block_size() == a0.spec_block_size(),
            a1.spec_layout() == a0.spec_layout(),
            frame(a0.slots(), a1.slots(), changed),
            self.owned().disjoint(changed),
        ensures
            self.wf(a1),
            self.contents(a1) == self.contents(a0),
    {
        let c = self.chain@;
        let s0 = a0.slots();
        let s1 = a1.slots();
        a1.lemma_inv();
        assert forall|i: int| 0 <= i < c.len() implies s1[(#[trigger] c[i]).slot as int] == s0[c[i].slot as int] && c[i].slot < s0.len() by {
            assert(handle_live(s0, c[i]));
            assert(self.owned().contains(c[i].slot));
            assert(!changed.contains(c[i].slot));
            assert(s1[c[i].slot as int] == s0[c[i].slot as int]);
        }
        lemma_chain_same(s0, s1, c, a0.spec_layout(), a0.spec_block_size());
        if c.len() > 0 {
            assert(s1[c[0].slot as int] == s0[c[0].slot as int]);
        }
    }

    /// Whether the buffer holds no block and no byte.
    pub closed spec fn is_blank(&self) -> bool {
        &&& self.chain@.len() == 0
        &&& self.head is None
        &&& self.tail is None
        &&& self.len == 0
        &&& self.read_offset == 0
    }

    /// Whether the two buffers hold the same blocks and counts, whatever
    /// their length limits.
    pub closed spec fn same_data(&self, other: Self) -> bool {
        &&& self.head == other.head
        &&& self.tail == other.tail
        &&& self.len == other.len
        &&& self.read_offset == other.read_offset
        &&& self.chain == other.chain
    }

    /// The length limit plays no part in well-formedness or contents.
    pub proof fn lemma_same_data<A: Allocator>(&self, other: Self, a: &A)
        requires
            self.same_data(other),
            other.wf(a),
        ensures
            self.wf(a),
            self.contents(a) == other.contents(a),
            self.owned() == other.owned(),
            self.spec_total() == other.spec_total(),
            self.spec_read_offset() == other.spec_read_offset(),
    {
    }

    /// A buffer with no blocks is well formed in every allocator.
    pub proof fn lemma_blank_wf<A: Allocator>(&self, a: &A)
        requires
            self.is_blank(),
            a.inv(),
        ensures
            self.wf(a),
            self.contents(a) == Seq::<u8>::empty(),
            self.owned() == Set::<u16>::empty(),
            self.spec_chain().len() == 0,
            self.spec_total() == 0,
            self.spec_read_offset() == 0,
            self.headroom() == self.limit(),
            self.room(a) == free_slots(a.slots()) * payload_capacity(a.spec_block_size()),
    {
        a.lemma_inv();
        assert(self.contents(a) =~= Seq::<u8>::empty());
        assert(self.owned() =~= Set::<u16>::empty());
    }

    /// The free room of a buffer's tail block depends only on its own blocks.
    pub proof fn lemma_tail_same<A: Allocator>(&self, a0: &A, a1: &A, changed: Set<u16>)
        requires
            self.wf(a0),
            a1.inv(),
            a1.spec_block_size() == a0.spec_block_size(),
            a1.spec_layout() == a0.spec_layout(),
            frame(a0.slots(), a1.slots(), changed),
            self.owned().disjoint(changed),
        ensures
            self.tail_room(a1.slots(), a1.spec_layout(), a1.spec_block_size()) == self.tail_room(
                a0.slots(),
                a0.spec_layout(),
                a0.spec_block_size(),
            ),
    {
        let c = self.chain@;
        if c.len() > 0 {
            let t = c[c.len() - 1];
            assert(handle_live(a0.slots(), t));
            assert(self.owned().contains(t.slot));
            assert(a1.slots()[t.slot as int] == a0.slots()[t.slot as int]);
        }
    }

    /// An empty buffer with no length limit.
    pub fn new() -> (r: Self)
        ensures
            r.is_blank(),
            r.spec_max_len() is None,
    {
        ByteBuffer {
            head: None,
            tail: None,
            len: 0,
            max_len: None,
            read_offset: 0,
            chain: Ghost(Seq::empty()),
        }
    }

    /// An empty buffer that holds at most `max` bytes.
    pub fn with_max_len(max: u16) -> (r: Self)
        ensures
            r.is_blank(),
            r.spec_max_len() == Some(max),
    {
        ByteBuffer {
            head: None,
            tail: None,
            len: 0,
            max_len: Some(max),
            read_offset: 0,
            chain: Ghost(Seq::empty()),
        }
    }

    /// Sets the length limit; `None` removes it.
    pub fn set_max_len(&mut self, v: Option<u16>)
        ensures
            final(self).spec_max_len() == v,
            final(self).spec_chain() == old(self).spec_chain(),
            final(self).spec_total() == old(self).spec_total(),
            final(self).spec_read_offset() == old(self).spec_read_offset(),
            final(self).same_data(*old(self)),
    {
        self.max_len = v;
    }

    /// Bytes written and still held in blocks, consumed or not.
    pub fn total_len(&self) -> (r: u16)
        ensures
            r == self.spec_total(),
    {
        self.len
    }

    /// Bytes of the head block already consumed.
    pub fn consumed(&self) -> (r: u16)
        ensures
            r == self.spec_read_offset(),
    {
        self.read_offset
    }

    /// The length limit.
    pub fn max_len(&self) -> (r: Option<u16>)
        ensures
            r == self.spec_max_len(),
    {
        self.max_len
    }

    /// Number of bytes available to read.
    pub fn len(&self) -> (r: u16)
        ensures
            r == self.spec_len(),
    {
        if self.len >= self.read_offset {
            self.len - self.read_offset
        } else {
            0
        }
    }

    /// Whether no byte is available to read.
    pub fn is_empty(&self) -> (r: bool)
        ensures
            r == (self.spec_len() == 0),
    {
        self.len() == 0
    }

    /// Number of bytes available to read, as a `usize`.
    pub fn input_len(&self) -> (r: usize)
        ensures
            r == self.spec_len(),
    {
        self.len() as usize
    }

    /// A view of the first `count` unread bytes (all of them if fewer), with
    /// that count as its length limit. The view shares the buffer's blocks.
    pub fn take(&self, count: usize) -> (r: Self)
        ensures
            r.spec_len() == if count < self.spec_len() {
                count as nat
            } else {
                self.spec_len()
            },
            r.spec_max_len() == Some(r.spec_len() as u16),
            r.spec_read_offset() == self.spec_read_offset(),
            r.spec_chain() == self.spec_chain(),
            forall|s: Seq<SlotState>, l: BitLayout|
                chain_bytes(s, self.spec_chain(), l).len() == self.spec_total() && self.spec_read_offset()
                    <= self.spec_total() ==> #[trigger] r.raw_contents(s, l) == self.raw_contents(s, l).subrange(
                    0,
                    r.spec_len() as int,
                ),
    {
        let avail = self.len();
        let n: u16 = if count < avail as usize {
            count as u16
        } else {
            avail
        };
        let r = ByteBuffer {
            head: self.head,
            tail: self.tail,
            len: self.read_offset + n,
            max_len: Some(n),
            read_offset: self.read_offset,
            chain: self.chain,
        };
        proof {
            assert forall|s: Seq<SlotState>, l: BitLayout|
                chain_bytes(s, self.spec_chain(), l).len() == self.spec_total() && self.spec_read_offset()
                    <= self.spec_total() implies #[trigger] r.raw_contents(s, l) == self.raw_contents(s, l).subrange(
                    0,
                    n as int,
                ) by {
                assert(r.raw_contents(s, l) =~= self.raw_contents(s, l).subrange(0, n as int));
            }
        }
        r
    }

    /// The unread bytes after the first `index`: the buffer's blocks with the
    /// read offset moved past them, or an empty buffer when `index` is not
    /// below the number of unread bytes.
    pub fn take_from(&self, index: usize) -> (r: Self)
        ensures
            index >= self.spec_len() ==> r.is_blank() && r.spec_max_len() is None,
            index < self.spec_len() ==> {
                &&& r.spec_len() == self.spec_len() - index
                &&& r.spec_chain() == self.spec_chain()
                &&& r.spec_total() == self.spec_total()
                &&& r.spec_read_offset() == self.spec_read_offset() + index
                &&& r.spec_max_len() == self.spec_max_len()
                &&& forall|s: Seq<SlotState>, l: BitLayout|
                    chain_bytes(s, self.spec_chain(), l).len() == self.spec_total() ==> #[trigger] r.raw_contents(
                        s,
                        l,
                    ) == self.raw_contents(s, l).subrange(index as int, self.spec_len() as int)
            },
    {
        if index >= self.len() as usize {
            ByteBuffer::new()
        } else {
            let r = ByteBuffer {
                head: self.head,
                tail: self.tail,
                len: self.len,
                max_len: self.max_len,
                read_offset: self.read_offset + index as u16,
                chain: self.chain,
            };
            proof {
                assert forall|s: Seq<SlotState>, l: BitLayout|
                    chain_bytes(s, self.spec_chain(), l).len() == self.spec_total() implies #[trigger] r.raw_contents(
                        s,
                        l,
                    ) == self.raw_contents(s, l).subrange(index as int, self.spec_len() as int) by {
                    assert(r.raw_contents(s, l) =~= self.raw_contents(s, l).subrange(index as int, self.spec_len() as int));
                }
            }
            r
        }
    }

    /// `(take_from(index), take(index))`: the unread bytes after `index`, and
    /// the first `index` of them.
    pub fn take_split(&self, index: usize) -> (r: (Self, Self))
        ensures
            index >= self.spec_len() ==> r.0.is_blank() && r.0.spec_max_len() is None,
            index < self.spec_len() ==> {
                &&& r.0.spec_len() == self.spec_len() - index
                &&& r.0.spec_chain() == self.spec_chain()
                &&& r.0.spec_read_offset() == self.spec_read_offset() + index
                &&& forall|s: Seq<SlotState>, l: BitLayout|
                    chain_bytes(s, self.spec_chain(), l).len() == self.spec_total() ==> #[trigger] r.0.raw_contents(
                        s,
                        l,
                    ) == self.raw_contents(s, l).subrange(index as int, self.spec_len() as int)
            },
            r.1.spec_len() == if index < self.spec_len() {
                index as nat
            } else {
                self.spec_len()
            },
            r.1.spec_max_len() == Some(r.1.spec_len() as u16),
            r.1.spec_chain() == self.spec_chain(),
            forall|s: Seq<SlotState>, l: BitLayout|
                chain_bytes(s, self.spec_chain(), l).len() == self.spec_total() && self.spec_read_offset()
                    <= self.spec_total() ==> #[trigger] r.1.raw_contents(s, l) == self.raw_contents(s, l).subrange(
                    0,
                    r.1.spec_len() as int,
                ),
    {
        let remaining = self.take_from(index);
        let taken = self.take(index);
        (remaining, taken)
    }

    /// `Ok(count)` when `count` unread bytes can be taken, otherwise how
    /// many more bytes would be needed.
    pub fn slice_index(&self, count: usize) -> (r: Result<usize, usize>)
        ensures
            count <= self.spec_len() ==> r == Ok::<usize, usize>(count),
            count > self.spec_len() ==> r == Err::<usize, usize>((count - self.spec_len()) as usize),
    {
        let avail = self.len() as usize;
        if count <= avail {
            Ok(count)
        } else {
            Err(count - avail)
        }
    }

    /// Allocates a block of `block_size` bytes whose header links nowhere
    /// and records no payload.
    fn alloc_node<A: Allocator>(&self, arena: &mut A, block_size: usize) -> (r: Result<Handle, ByteBufferError>)
        requires
            old(arena).inv(),
            block_size == old(arena).spec_block_size(),
        ensures
            final(arena).inv(),
            final(arena).spec_block_size() == old(arena).spec_block_size(),
            final(arena).spec_layout() == old(arena).spec_layout(),
            match r {
                Ok(h) => {
                    &&& payload_capacity(block_size as nat) > 0
                    &&& h.slot < old(arena).slots().len()
                    &&& !old(arena).slots()[h.slot as int].allocated
                    &&& h.generation == old(arena).slots()[h.slot as int].generation
                    &&& block_of(final(arena).slots(), h).len() == block_size
                    &&& header_word(block_of(final(arena).slots(), h)) == end_header(0, old(arena).spec_layout())
                    &&& final(arena).slots() == with_block(old(arena).slots(), h, block_of(final(arena).slots(), h))
                },
                Err(e) => {
                    &&& e == ByteBufferError::AllocationFailed
                    &&& final(arena).slots() == old(arena).slots()
                    &&& (payload_capacity(block_size as nat) == 0 || all_allocated(old(arena).slots()))
                },
            },
    {
        if block_size <= 2 {
            return Err(ByteBufferError::AllocationFailed);
        }
        let layout = arena.bit_layout();
        proof {
            arena.lemma_inv();
            lemma_pow2_pos(layout.len_bits as nat);
            lemma_end_header(0, layout);
            crate::header::lemma_pow2_le16(layout.slot_bits as nat);
        }
        match arena.alloc_uninit(block_size) {
            None => Err(ByteBufferError::AllocationFailed),
            Some(h) => {
                let ghost s1 = arena.slots();
                proof {
                    lemma_pow2_pos(layout.slot_bits as nat);
                }
                let none = (crate::allocator::pow2_u32(layout.slot_bits) - 1) as u16;
                let meta = pack_header(none, 0, NONE_GEN, &layout);
                write_header(arena, h, meta);
                proof {
                    lemma_with_header(block_of(s1, h), meta as nat);
                    assert(arena.slots() =~= with_block(old(arena).slots(), h, block_of(arena.slots(), h)));
                }
                Ok(h)
            },
        }
    }

    /// Allocates a block holding the single byte `b`, linking nowhere.
    fn fresh_block<A: Allocator>(&self, arena: &mut A, b: u8) -> (r: Result<Handle, ByteBufferError>)
        requires
            old(arena).inv(),
        ensures
            final(arena).inv(),
            final(arena).spec_block_size() == old(arena).spec_block_size(),
            final(arena).spec_layout() == old(arena).spec_layout(),
            match r {
                Ok(h) => {
                    &&& payload_capacity(old(arena).spec_block_size()) > 0
                    &&& h.slot < old(arena).slots().len()
                    &&& !old(arena).slots()[h.slot as int].allocated
                    &&& h.generation == old(arena).slots()[h.slot as int].generation
                    &&& block_of(final(arena).slots(), h).len() == old(arena).spec_block_size()
                    &&& header_word(block_of(final(arena).slots(), h)) == end_header(1, old(arena).spec_layout())
                    &&& block_of(final(arena).slots(), h)[2] == b
                    &&& final(arena).slots() == with_block(old(arena).slots(), h, block_of(final(arena).slots(), h))
                },
                Err(e) => {
                    &&& e == ByteBufferError::AllocationFailed
                    &&& final(arena).slots() == old(arena).slots()
                    &&& (payload_capacity(old(arena).spec_block_size()) == 0 || all_allocated(old(arena).slots()))
                },
            },
    {
        let block_size = arena.block_size();
        let layout = arena.bit_layout();
        let h = self.alloc_node(arena, block_size)?;
        let ghost s1 = arena.slots();
        let ok = arena.set_byte(h, 2, b);
        proof {
            assert(ok);
            arena.lemma_inv();
            lemma_pow2_pos(layout.len_bits as nat);
            lemma_end_header(0, layout);
            lemma_end_header(1, layout);
            lemma_unpack_pack(end_header(0, layout), layout);
            assert(header_word(block_of(arena.slots(), h)) == end_header(0, layout));
        }
        let ghost s2 = arena.slots();
        let meta = set_len(read_header(arena.get(h).unwrap()), 1, &layout);
        write_header(arena, h, meta);
        proof {
            lemma_with_header(block_of(s2, h), meta as nat);
            assert(arena.slots() =~= with_block(old(arena).slots(), h, block_of(arena.slots(), h)));
        }
        Ok(h)
    }

    /// The relation between the buffer and allocator before and after the
    /// byte `b` was appended.
    pub closed spec fn appended<A: Allocator>(self, a0: &A, next: Self, a1: &A, b: u8) -> bool {
        &&& next.wf(a1)
        &&& a1.spec_block_size() == a0.spec_block_size()
        &&& a1.spec_layout() == a0.spec_layout()
        &&& frame(a0.slots(), a1.slots(), self.owned())
        &&& owned_growth(self.owned(), next.owned(), a0.slots())
        &&& next.max_len == self.max_len
        &&& next.read_offset == self.read_offset
        &&& next.contents(a1) == self.contents(a0).push(b)
        &&& next.len == self.len + 1
        &&& next.room(a1) + 1 == self.room(a0)
        &&& count_allocated(a1.slots()) + self.chain@.len() == count_allocated(a0.slots()) + next.chain@.len()
        &&& next.chain@.len() == self.chain@.len() + if self.needs_block(a0) {
            1int
        } else {
            0int
        }
    }

    /// What `appended` states, spelled out.
    pub proof fn lemma_appended<A: Allocator>(self, a0: &A, next: Self, a1: &A, b: u8)
        requires
            self.appended(a0, next, a1, b),
        ensures
            next.wf(a1),
            a1.spec_block_size() == a0.spec_block_size(),
            a1.spec_layout() == a0.spec_layout(),
            frame(a0.slots(), a1.slots(), self.owned()),
            owned_growth(self.owned(), next.owned(), a0.slots()),
            next.spec_max_len() == self.spec_max_len(),
            next.spec_read_offset() == self.spec_read_offset(),
            next.contents(a1) == self.contents(a0).push(b),
            next.spec_total() == self.spec_total() + 1,
            next.room(a1) + 1 == self.room(a0),
            count_allocated(a1.slots()) + self.spec_chain().len() == count_allocated(a0.slots())
                + next.spec_chain().len(),
            next.spec_chain().len() == self.spec_chain().len() + if self.needs_block(a0) {
                1int
            } else {
                0int
            },
    {
    }

    /// Whether appending a byte takes a new block: the buffer has none, or
    /// its tail block is full.
    pub open spec fn needs_block<A: Allocator>(&self, a: &A) -> bool {
        self.spec_chain().len() == 0 || self.tail_room(a.slots(), a.spec_layout(), a.spec_block_size()) == 0
    }

    /// Appends the byte `b`. Fails with `Full` when the buffer holds as many
    /// bytes as its limit, and with `AllocationFailed` when a new block is
    /// needed and the allocator cannot give one; a failed call changes
    /// nothing.
    #[verifier::spinoff_prover]
    #[verifier::rlimit(40)]
    pub fn append<A: Allocator>(&mut self, arena: &mut A, b: u8) -> (r: Result<(), ByteBufferError>)
        requires
            old(self).wf(old(arena)),
        ensures
            r is Ok ==> old(self).appended(old(arena), *final(self), final(arena), b),
            r is Err ==> *final(self) == *old(self) && final(arena).slots() == old(arena).slots(),
            final(self).wf(final(arena)),
            final(arena).spec_block_size() == old(arena).spec_block_size(),
            final(arena).spec_layout() == old(arena).spec_layout(),
            r is Ok <==> (!old(self).is_full() && old(self).room(old(arena)) > 0),
            (r == Err::<(), ByteBufferError>(ByteBufferError::Full)) <==> old(self).is_full(),
            (r == Err::<(), ByteBufferError>(ByteBufferError::AllocationFailed)) <==> (!old(self).is_full()
                && old(self).room(old(arena)) == 0),
            r != Err::<(), ByteBufferError>(ByteBufferError::Uninitialized),
    {
        let limit: u16 = match self.max_len {
            Some(m) => m,
            None => MAX_BUFFER_LEN,
        };
        if self.len >= limit {
            return Err(ByteBufferError::Full);
        }
        let layout = arena.bit_layout();
        proof {
            arena.lemma_inv();
        }
        match self.tail {
            None => self.append_first(arena, b),
            Some(t) => {
                let block = match arena.get(t) {
                    Some(blk) => blk,
                    None => return Err(ByteBufferError::Uninitialized),
                };
                let meta = read_header(block);
                let len = get_len(block, &layout);
                let capacity = data_capacity(block);
                if len as usize >= capacity {
                    self.append_block(arena, b, t, meta)
                } else {
                    self.append_in_tail(arena, b, t, meta, len);
                    Ok(())
                }
            },
        }
    }

    /// Appends `b` to an empty chain, in a new block.
    #[verifier::spinoff_prover]
    #[verifier::rlimit(40)]
    fn append_first<A: Allocator>(&mut self, arena: &mut A, b: u8) -> (r: Result<(), ByteBufferError>)
        requires
            old(self).wf(old(arena)),
            !old(self).is_full(),
            old(self).spec_chain().len() == 0,
        ensures
            r is Ok ==> old(self).appended(old(arena), *final(self), final(arena), b),
            r is Err ==> *final(self) == *old(self) && final(arena).slots() == old(arena).slots(),
            final(self).wf(final(arena)),
            final(arena).spec_block_size() == old(arena).spec_block_size(),
            final(arena).spec_layout() == old(arena).spec_layout(),
            r is Err <==> old(self).room(old(arena)) == 0,
            r is Err ==> r == Err::<(), ByteBufferError>(ByteBufferError::AllocationFailed),
    {
        let ghost s0 = arena.slots();
        let ghost bs = arena.spec_block_size();
        let ghost cap = payload_capacity(bs);
        let ghost layout = arena.spec_layout();
        proof {
            arena.lemma_inv();
            lemma_count_bound(s0);
            lemma_pow2_pos(layout.len_bits as nat);
            if all_allocated(s0) {
                assert(free_slots(s0) == 0);
            }
            assert(free_slots(s0) * cap == 0 <==> (free_slots(s0) == 0 || cap == 0)) by (nonlinear_arith);
        }
        let h = self.fresh_block(arena, b)?;
        self.head = Some(h);
        self.tail = Some(h);
        self.len = 1;
        self.chain = Ghost(Seq::empty().push(h));
        proof {
            let s1 = arena.slots();
            lemma_end_header(1, layout);
            lemma_count_update(s0, h.slot as int, s1[h.slot as int]);
            assert(free_slots(s0) * cap == (free_slots(s0) - 1) * cap + cap) by (nonlinear_arith);
            assert(self.chain@.drop_last() =~= Seq::<Handle>::empty());
            assert(chain_bytes(s1, Seq::<Handle>::empty(), layout) =~= Seq::<u8>::empty());
            assert(self.chain@.last() == h);
            assert(payload(s1, h, layout) =~= Seq::empty().push(b));
            assert(chain_bytes(s1, self.chain@, layout) =~= Seq::empty().push(b));
            assert(old(self).contents(old(arena)) =~= Seq::<u8>::empty());
            assert(self.contents(arena) =~= Seq::empty().push(b));
            assert(self.owned() =~= Set::empty().insert(h.slot)) by {
                assert(self.chain@[0] == h);
            }
            assert(packed(s1, self.chain@, layout, bs));
            assert(chain_ok(s1, self.chain@, layout, bs));
            assert(self.shape_ok(s1, layout, bs));
            assert(self.offset_ok(s1, layout));
            arena.lemma_inv();
            assert(self.wf(arena));
            assert(old(self).appended(old(arena), *self, arena, b));
        }
        Ok(())
    }

    /// Appends `b` in the tail block `t`, whose header word is `meta` and
    /// which holds `len` bytes, fewer than it can.
    #[verifier::spinoff_prover]
    #[verifier::rlimit(40)]
    fn append_in_tail<A: Allocator>(&mut self, arena: &mut A, b: u8, t: Handle, meta: u16, len: u16)
        requires
            old(self).wf(old(arena)),
            !old(self).is_full(),
            old(self).spec_chain().len() > 0,
            t == old(self).spec_chain().last(),
            meta == header_word(block_of(old(arena).slots(), t)),
            len == chunk_len(old(arena).slots(), t, old(arena).spec_layout()),
            len < payload_capacity(old(arena).spec_block_size()),
        ensures
            old(self).appended(old(arena), *final(self), final(arena), b),
            final(self).wf(final(arena)),
            final(arena).spec_block_size() == old(arena).spec_block_size(),
            final(arena).spec_layout() == old(arena).spec_layout(),
    {
        let layout = arena.bit_layout();
        let ghost s0 = arena.slots();
        let ghost c0 = self.chain@;
        let ghost bs = arena.spec_block_size();
        let ghost d0 = block_of(s0, t);
        proof {
            arena.lemma_inv();
            self.lemma_wf(arena);
            assert(handle_live(s0, c0[c0.len() - 1]));
            lemma_unpack_pack(meta as nat, layout);
        }
        let ok = arena.set_byte(t, 2 + len as usize, b);
        let ghost d1 = d0.update(2 + len, b);
        proof {
            assert(ok);
            assert(arena.slots() == with_block(s0, t, d1));
            lemma_pack_fields(field_slot(meta as nat, layout), (len + 1) as nat, field_gen(meta as nat, layout), layout);
        }
        let new_meta = set_len(meta, len + 1, &layout);
        write_header(arena, t, new_meta);
        self.len = self.len + 1;
        proof {
            let s2 = arena.slots();
            let nd = with_header(d1, new_meta as nat);
            lemma_with_header(d1, new_meta as nat);
            assert(s2 =~= with_block(s0, t, nd));
            assert(next_of(header_word(nd), layout) == next_of(meta as nat, layout));
            lemma_replace_last(s0, c0, layout, bs, nd);
            assert(nd.subrange(2, 2 + len + 1) =~= payload(s0, t, layout).push(b));
            assert(chain_bytes(s0, c0, layout) == chain_bytes(s0, c0.drop_last(), layout) + payload(s0, t, layout));
            assert(chain_bytes(s2, c0, layout) =~= chain_bytes(s0, c0, layout).push(b));
            assert(self.contents(arena) =~= old(self).contents(old(arena)).push(b));
            lemma_count_update(s0, t.slot as int, s2[t.slot as int]);
            assert(old(self).owned().contains(t.slot)) by {
                assert(c0[c0.len() - 1].slot == t.slot);
            }
            assert(frame(s0, s2, old(self).owned()));
            assert(free_slots(s2) == free_slots(s0));
            assert(self.tail_room(s2, layout, bs) + 1 == old(self).tail_room(s0, layout, bs));
            assert(self.shape_ok(s2, layout, bs));
            assert(self.offset_ok(s2, layout));
            assert(self.owned() == old(self).owned());
            assert(owned_growth(old(self).owned(), self.owned(), s0));
            assert(self.room(arena) + 1 == old(self).room(old(arena)));
            assert(packed(s2, c0, layout, bs)) by {
                assert forall|i: int| 0 <= i < c0.len() - 1 implies chunk_len(s2, #[trigger] c0[i], layout) == payload_capacity(bs) by {
                    assert(s2[c0[i].slot as int] == s0[c0[i].slot as int]);
                }
            }
            arena.lemma_inv();
            assert(self.wf(arena));
            assert(count_allocated(s2) == count_allocated(s0));
            assert(old(self).appended(old(arena), *self, arena, b));
        }
    }

    /// Appends `b` in a new block linked after the full tail block `t`,
    /// whose header word is `meta`.
    #[verifier::spinoff_prover]
    #[verifier::rlimit(40)]
    fn append_block<A: Allocator>(&mut self, arena: &mut A, b: u8, t: Handle, meta: u16) -> (r: Result<(), ByteBufferError>)
        requires
            old(self).wf(old(arena)),
            !old(self).is_full(),
            old(self).spec_chain().len() > 0,
            t == old(self).spec_chain().last(),
            meta == header_word(block_of(old(arena).slots(), t)),
            chunk_len(old(arena).slots(), t, old(arena).spec_layout()) >= payload_capacity(old(arena).spec_block_size()),
        ensures
            r is Ok ==> old(self).appended(old(arena), *final(self), final(arena), b),
            r is Err ==> *final(self) == *old(self) && final(arena).slots() == old(arena).slots(),
            final(self).wf(final(arena)),
            final(arena).spec_block_size() == old(arena).spec_block_size(),
            final(arena).spec_layout() == old(arena).spec_layout(),
            r is Err <==> old(self).room(old(arena)) == 0,
            r is Err ==> r == Err::<(), ByteBufferError>(ByteBufferError::AllocationFailed),
    {
        let layout = arena.bit_layout();
        let ghost s0 = arena.slots();
        let ghost c0 = self.chain@;
        let ghost bs = arena.spec_block_size();
        let ghost cap = payload_capacity(bs);
        proof {
            arena.lemma_inv();
            self.lemma_wf(arena);
            lemma_count_bound(s0);
            lemma_pow2_pos(layout.len_bits as nat);
            assert(handle_live(s0, c0[c0.len() - 1]));
            assert(self.tail_room(s0, layout, bs) == 0);
            if all_allocated(s0) {
                assert(free_slots(s0) == 0);
            }
            assert(free_slots(s0) * cap == 0 <==> (free_slots(s0) == 0 || cap == 0)) by (nonlinear_arith);
        }
        let n = self.fresh_block(arena, b)?;
        let ghost s1 = arena.slots();
        let ghost nd = block_of(s1, n);
        proof {
            lemma_end_header(1, layout);
            lemma_count_update(s0, n.slot as int, s1[n.slot as int]);
            assert(free_slots(s0) * cap == (free_slots(s0) - 1) * cap + cap) by (nonlinear_arith);
            assert(t.slot != n.slot);
            assert(s1[t.slot as int] == s0[t.slot as int]);
            lemma_unpack_pack(meta as nat, layout);
            lemma_link_header(n, chunk_len(s0, t, layout), layout, s0.len());
            lemma_pack_fields(n.slot as nat, field_len(meta as nat, layout), field_gen(meta as nat, layout), layout);
        }
        let linked = set_next_gen(set_next_slot(meta, n.slot, &layout), n.generation, &layout);
        write_header(arena, t, linked);
        self.tail = Some(n);
        self.len = self.len + 1;
        self.chain = Ghost(c0.push(n));
        proof {
            let s2 = arena.slots();
            let td = with_header(block_of(s0, t), linked as nat);
            lemma_with_header(block_of(s0, t), linked as nat);
            assert(s1 == with_block(s0, n, nd));
            assert(s2 == with_block(with_block(s0, n, nd), t, td));
            assert(td.subrange(2, bs as int) =~= block_of(s0, t).subrange(2, bs as int));
            lemma_push_block(s0, c0, layout, bs, n, nd, td);
            assert(nd.subrange(2, 3) =~= Seq::empty().push(b));
            assert(self.contents(arena) =~= old(self).contents(old(arena)).push(b));
            lemma_count_update(s1, t.slot as int, s2[t.slot as int]);
            assert(s2 =~= s1.update(t.slot as int, s2[t.slot as int]));
            let c = self.chain@;
            assert(self.owned() =~= old(self).owned().insert(n.slot)) by {
                assert forall|sl: u16| #[trigger] self.owned().contains(sl) implies old(self).owned().contains(sl) || sl == n.slot by {
                    let i = choose|i: int| 0 <= i < c.len() && (#[trigger] c[i]).slot == sl;
                    if i < c0.len() {
                        assert(c[i] == c0[i]);
                    }
                }
                assert forall|sl: u16| #[trigger] old(self).owned().contains(sl) implies self.owned().contains(sl) by {
                    let i = choose|i: int| 0 <= i < c0.len() && (#[trigger] c0[i]).slot == sl;
                    assert(c[i] == c0[i]);
                }
                assert(c[c0.len() as int] == n);
            }
            assert(old(self).owned().contains(t.slot)) by {
                assert(c0[c0.len() - 1].slot == t.slot);
            }
            assert(c[0] == c0[0]);
            assert(packed(s2, c, layout, bs)) by {
                assert forall|i: int| 0 <= i < c.len() - 1 implies chunk_len(s2, #[trigger] c[i], layout) == payload_capacity(bs) by {
                    assert(c[i] == c0[i]);
                    if i < c0.len() - 1 {
                        assert(s2[c0[i].slot as int] == s0[c0[i].slot as int]);
                    }
                }
                assert(c.last() == n);
            }
            assert(chain_ok(s2, c, layout, bs));
            assert(self.shape_ok(s2, layout, bs));
            assert(self.offset_ok(s2, layout));
            arena.lemma_inv();
            assert(self.wf(arena));
            assert(frame(s0, s2, old(self).owned()));
            assert(owned_growth(old(self).owned(), self.owned(), s0));
            assert(free_slots(s2) + 1 == free_slots(s0));
            assert(self.tail_room(s2, layout, bs) + 1 == cap);
            assert(self.room(arena) + 1 == old(self).room(old(arena)));
            assert(count_allocated(s2) + c0.len() == count_allocated(s0) + c.len());
            assert(old(self).appended(old(arena), *self, arena, b));
        }
        Ok(())
    }

    /// Appends the bytes of `data` one by one, stopping at the first failure;
    /// the bytes appended before it stay. The bytes that go in are as many as
    /// fit both the length limit and the allocator.
    #[verifier::spinoff_prover]
    #[verifier::rlimit(40)]
    pub fn extend<A: Allocator>(&mut self, arena: &mut A, data: &[u8]) -> (r: Result<(), ByteBufferError>)
        requires
            old(self).wf(old(arena)),
        ensures
            final(self).wf(final(arena)),
            final(arena).spec_block_size() == old(arena).spec_block_size(),
            final(arena).spec_layout() == old(arena).spec_layout(),
            frame(old(arena).slots(), final(arena).slots(), old(self).owned()),
            owned_growth(old(self).owned(), final(self).owned(), old(arena).slots()),
            final(self).spec_max_len() == old(self).spec_max_len(),
            extended(*old(self), old(arena), *final(self), final(arena), data@),
            r is Ok <==> data@.len() <= old(self).headroom() && data@.len() <= old(self).room(old(arena)),
            r == Err::<(), ByteBufferError>(ByteBufferError::Full) <==> (!(r is Ok) && old(self).headroom() <= old(self).room(old(arena))),
            r == Err::<(), ByteBufferError>(ByteBufferError::AllocationFailed) <==> (!(r is Ok) && old(self).room(old(arena)) < old(self).headroom()),
    {
        let mut i: usize = 0;
        let ghost s0 = arena.slots();
        let ghost c0 = self.contents(arena);
        let ghost h0 = self.headroom();
        let ghost r0 = self.room(arena);
        proof {
            self.lemma_wf(arena);
        }
        while i < data.len()
            invariant
                self.wf(arena),
                0 <= i <= data@.len(),
                i <= h0,
                i <= r0,
                h0 == old(self).headroom(),
                r0 == old(self).room(old(arena)),
                s0 == old(arena).slots(),
                arena.spec_block_size() == old(arena).spec_block_size(),
                arena.spec_layout() == old(arena).spec_layout(),
                frame(s0, arena.slots(), old(self).owned()),
                owned_growth(old(self).owned(), self.owned(), s0),
                self.max_len == old(self).max_len,
                self.headroom() + i == h0,
                self.room(arena) + i == r0,
                self.contents(arena) == c0 + data@.subrange(0, i as int),
                c0 == old(self).contents(old(arena)),
                count_allocated(arena.slots()) + old(self).spec_chain().len() == count_allocated(s0) + self.spec_chain().len(),
                self.read_offset == old(self).read_offset,
                self.len == old(self).len + i,
            decreases data@.len() - i,
        {
            let ghost s1 = arena.slots();
            let ghost b1 = *self;
            let res = self.append(arena, data[i]);
            match res {
                Ok(()) => {
                    proof {
                        lemma_frame_trans(s0, s1, arena.slots(), old(self).owned(), b1.owned());
                        lemma_growth_trans(old(self).owned(), b1.owned(), self.owned(), s0, s1);
                        assert(data@.subrange(0, i + 1) =~= data@.subrange(0, i as int).push(data@[i as int]));
                    }
                },
                Err(e) => {
                    proof {
                        assert(accepted(data@.len(), h0, r0) == i);
                        assert(data@.subrange(0, i as int) =~= data@.subrange(0, accepted(data@.len(), h0, r0) as int));
                    }
                    return Err(e);
                },
            }
            i = i + 1;
        }
        proof {
            assert(data@.subrange(0, data@.len() as int) =~= data@);
        }
        Ok(())
    }

    /// Bytes the buffer can still take before its length limit.
    pub open spec fn headroom(&self) -> nat {
        if self.limit() > self.spec_total() {
            (self.limit() - self.spec_total()) as nat
        } else {
            0
        }
    }

    /// The payloads of all blocks of the chain, consumed bytes included.
    fn chain_vec<A: Allocator>(&self, arena: &A) -> (r: Vec<u8>)
        requires
            self.wf(arena),
        ensures
            r@ == chain_bytes(arena.slots(), self.spec_chain(), arena.spec_layout()),
    {
        let layout = arena.bit_layout();
        let ghost c = self.chain@;
        let ghost slots = arena.slots();
        let mut out: Vec<u8> = Vec::new();
        let mut cursor = self.head;
        let ghost mut i: int = 0;
        proof {
            arena.lemma_inv();
            assert(c.subrange(0, 0) =~= Seq::<Handle>::empty());
        }
        while cursor.is_some()
            invariant
                self.wf(arena),
                c == self.chain@,
                slots == arena.slots(),
                layout == arena.spec_layout(),
                model_ok(slots, arena.spec_block_size(), layout),
                0 <= i <= c.len(),
                cursor == if i < c.len() {
                    Some(c[i])
                } else {
                    None::<Handle>
                },
                out@ == chain_bytes(slots, c.subrange(0, i), layout),
            decreases c.len() - i,
        {
            let h = cursor.unwrap();
            proof {
                assert(handle_live(slots, c[i]));
            }
            let block = arena.get(h).unwrap();
            let data = crate::header::get_data(block, &layout);
            let mut j: usize = 0;
            let ghost before = out@;
            while j < data.len()
                invariant
                    0 <= j <= data@.len(),
                    out@ == before + data@.subrange(0, j as int),
                decreases data@.len() - j,
            {
                out.push(data[j]);
                proof {
                    assert(data@.subrange(0, j + 1) =~= data@.subrange(0, j as int).push(data@[j as int]));
                }
                j = j + 1;
            }
            cursor = get_next_handle(block, &layout);
            proof {
                assert(c.subrange(0, i + 1).drop_last() =~= c.subrange(0, i));
                assert(data@.subrange(0, data@.len() as int) =~= data@);
                i = i + 1;
            }
        }
        proof {
            assert(c.subrange(0, c.len() as int) =~= c);
        }
        out
    }

    /// The unread bytes of the buffer, in order.
    pub fn to_vec<A: Allocator>(&self, arena: &A) -> (r: Vec<u8>)
        requires
            self.wf(arena),
        ensures
            r@ == self.contents(arena),
    {
        let all = self.chain_vec(arena);
        let mut out: Vec<u8> = Vec::new();
        let mut k: usize = self.read_offset as usize;
        proof {
            self.lemma_wf(arena);
        }
        while k < self.len as usize
            invariant
                self.wf(arena),
                all@ == chain_bytes(arena.slots(), self.spec_chain(), arena.spec_layout()),
                self.read_offset <= k <= self.len,
                self.len == all@.len(),
                out@ == all@.subrange(self.read_offset as int, k as int),
            decreases self.len - k,
        {
            out.push(all[k]);
            proof {
                assert(all@.subrange(self.read_offset as int, k + 1) =~= all@.subrange(self.read_offset as int, k as int).push(all@[k as int]));
            }
            k = k + 1;
        }
        out
    }

    /// The payload of each block of the chain, head first.
    fn chunk_vecs<A: Allocator>(&self, arena: &A) -> (r: Vec<Vec<u8>>)
        requires
            self.wf(arena),
        ensures
            r@.len() == self.spec_chain().len(),
            forall|i: int| 0 <= i < r@.len() ==> (#[trigger] r@[i])@ == payload(
                arena.slots(),
                self.spec_chain()[i],
                arena.spec_layout(),
            ),
    {
        let layout = arena.bit_layout();
        let ghost c = self.chain@;
        let ghost slots = arena.slots();
        let mut out: Vec<Vec<u8>> = Vec::new();
        let mut cursor = self.head;
        let ghost mut i: int = 0;
        proof {
            arena.lemma_inv();
        }
        while cursor.is_some()
            invariant
                self.wf(arena),
                c == self.chain@,
                slots == arena.slots(),
                layout == arena.spec_layout(),
                model_ok(slots, arena.spec_block_size(), layout),
                0 <= i <= c.len(),
                cursor == if i < c.len() {
                    Some(c[i])
                } else {
                    None::<Handle>
                },
                out@.len() == i,
                forall|k: int| 0 <= k < i ==> (#[trigger] out@[k])@ == payload(slots, c[k], layout),
            decreases c.len() - i,
        {
            let h = cursor.unwrap();
            proof {
                assert(handle_live(slots, c[i]));
            }
            let block = arena.get(h).unwrap();
            let data = crate::header::get_data(block, &layout);
            out.push(vstd::slice::slice_to_vec(data));
            cursor = get_next_handle(block, &layout);
            proof {
                i = i + 1;
            }
        }
        out
    }

    /// The unread bytes over the given slot states.
    pub closed spec fn raw_contents(&self, slots: Seq<SlotState>, l: BitLayout) -> Seq<u8> {
        chain_bytes(slots, self.chain@, l).subrange(self.read_offset as int, self.len as int)
    }

    /// Frees the head blocks whose bytes have all been consumed.
    #[verifier::spinoff_prover]
    #[verifier::rlimit(40)]
    fn try_free_head_chunks<A: Allocator>(&mut self, arena: &mut A)
        requires
            old(arena).inv(),
            model_ok(old(arena).slots(), old(arena).spec_block_size(), old(arena).spec_layout()),
            old(self).shape_ok(old(arena).slots(), old(arena).spec_layout(), old(arena).spec_block_size()),
        ensures
            final(self).wf(final(arena)),
            final(arena).spec_block_size() == old(arena).spec_block_size(),
            final(arena).spec_layout() == old(arena).spec_layout(),
            final(self).contents(final(arena)) == old(self).raw_contents(old(arena).slots(), old(arena).spec_layout()),
            frame(old(arena).slots(), final(arena).slots(), old(self).owned()),
            final(self).owned().subset_of(old(self).owned()),
            final(self).spec_chain().len() <= old(self).spec_chain().len(),
            count_allocated(final(arena).slots()) + old(self).spec_chain().len() == count_allocated(old(arena).slots())
                + final(self).spec_chain().len(),
            final(self).max_len == old(self).max_len,
            final(self).len - final(self).read_offset == old(self).len - old(self).read_offset,
            final(self).chain@ == old(self).chain@.subrange(
                old(self).chain@.len() - final(self).chain@.len(),
                old(self).chain@.len() as int,
            ),
            final(self).chain@.len() == old(self).chain@.len() ==> *final(self) == *old(self) && *final(arena)
                == *old(arena),
            final(self).chain@.len() < old(self).chain@.len() ==> old(self).read_offset >= final(self).read_offset
                + chunk_len(old(arena).slots(), old(self).chain@[0], old(arena).spec_layout()),
            final(self).chain@.len() + 1 < old(self).chain@.len() ==> old(self).read_offset >= final(self).read_offset
                + chunk_len(old(arena).slots(), old(self).chain@[0], old(arena).spec_layout()) + 1,
    {
        let layout = arena.bit_layout();
        let ghost s0 = arena.slots();
        let ghost bs = arena.spec_block_size();
        let ghost c0 = self.chain@;
        let ghost ch0 = if c0.len() > 0 {
            chunk_len(s0, c0[0], layout)
        } else {
            0
        };
        let mut done = false;
        proof {
            assert(c0.subrange(0, c0.len() as int) =~= c0);
        }
        while !done && self.head.is_some()
            invariant
                arena.inv(),
                arena.spec_block_size() == bs,
                arena.spec_layout() == layout,
                bs == old(arena).spec_block_size(),
                layout == old(arena).spec_layout(),
                s0 == old(arena).slots(),
                c0 == old(self).chain@,
                model_ok(arena.slots(), bs, layout),
                self.shape_ok(arena.slots(), layout, bs),
                self.raw_contents(arena.slots(), layout) == old(self).raw_contents(s0, layout),
                frame(s0, arena.slots(), old(self).owned()),
                self.owned().subset_of(old(self).owned()),
                self.chain@.len() <= c0.len(),
                count_allocated(arena.slots()) + c0.len() == count_allocated(s0) + self.chain@.len(),
                self.max_len == old(self).max_len,
                self.len - self.read_offset == old(self).len - old(self).read_offset,
                done ==> self.offset_ok(arena.slots(), layout),
                self.chain@ == c0.subrange(c0.len() - self.chain@.len(), c0.len() as int),
                self.chain@.len() == c0.len() ==> *self == *old(self) && *arena == *old(arena),
                ch0 == (if c0.len() > 0 {
                    chunk_len(s0, c0[0], layout)
                } else {
                    0
                }),
                self.chain@.len() < c0.len() ==> old(self).read_offset >= self.read_offset + ch0,
                self.chain@.len() + 1 < c0.len() ==> old(self).read_offset >= self.read_offset + ch0 + 1,
            decreases self.chain@.len() + if done {
                0int
            } else {
                1int
            },
        {
            let head = self.head.unwrap();
            let ghost s1 = arena.slots();
            let ghost c = self.chain@;
            proof {
                assert(handle_live(s1, c[0]));
                lemma_chain_bytes_front(s1, c, layout);
            }
            let (chunk, next) = match arena.get(head) {
                Some(block) => (get_len(block, &layout), get_next_handle(block, &layout)),
                None => {
                    done = true;
                    continue;
                },
            };
            if self.read_offset >= chunk {
                proof {
                    assert(handle_live(s1, c[c.len() - 1]));
                    if c.len() > 1 {
                        assert(chunk_len(s1, c[0], layout) == payload_capacity(bs));
                        assert(chunk_len(s1, c.last(), layout) >= 1);
                    }
                    assert(chunk_len(s1, c[0], layout) >= 1);
                    if self.chain@.len() == c0.len() {
                        assert(c =~= c0);
                    }
                }
                let ok = arena.free(head);
                proof {
                    assert(ok);
                    let s2 = arena.slots();
                    arena.lemma_inv();
                    lemma_count_update(s1, head.slot as int, s2[head.slot as int]);
                    assert forall|i: int| 1 <= i < c.len() implies s2[(#[trigger] c[i]).slot as int] == s1[c[i].slot as int] by {
                        assert(c[i].slot != c[0].slot);
                    }
                    lemma_drop_head(s1, s2, c, layout, bs);
                }
                self.read_offset = self.read_offset - chunk;
                self.len = self.len - chunk;
                self.head = next;
                if next.is_none() {
                    self.tail = None;
                }
                self.chain = Ghost(c.drop_first());
                proof {
                    let s2 = arena.slots();
                    let d = c.drop_first();
                    assert(d =~= c0.subrange(c0.len() - d.len(), c0.len() as int));
                    if d.len() > 0 {
                        assert(d.last() == c.last());
                    }
                    assert(self.raw_contents(s2, layout) =~= old(self).raw_contents(s0, layout));
                    assert(self.owned().subset_of(old(self).owned())) by {
                        assert forall|sl: u16| #[trigger] self.owned().contains(sl) implies old(self).owned().contains(sl) by {
                            let i = choose|i: int| 0 <= i < d.len() && (#[trigger] d[i]).slot == sl;
                            assert(d[i] == c[i + 1]);
                            assert(self.owned().contains(sl));
                        }
                    }
                    assert(frame(s1, s2, Set::empty().insert(head.slot)));
                    assert(old(self).owned().contains(head.slot)) by {
                        assert(c[0].slot == head.slot);
                    }
                    assert(frame(s0, s2, old(self).owned())) by {
                        assert forall|sl: u16| sl < s0.len() && s0[sl as int].allocated && !old(self).owned().contains(sl) implies #[trigger] s2[sl as int] == s0[sl as int] by {
                            assert(s1[sl as int] == s0[sl as int]);
                        }
                    }
                }
            } else {
                done = true;
            }
        }
        proof {
            if !done {
                assert(self.chain@.len() == 0);
            }
        }
    }

    /// The first unread byte, if any.
    pub fn peek_front<A: Allocator>(&self, arena: &A) -> (r: Option<u8>)
        requires
            self.wf(arena),
        ensures
            r == if self.contents(arena).len() > 0 {
                Some(self.contents(arena)[0])
            } else {
                None::<u8>
            },
    {
        proof {
            self.lemma_wf(arena);
        }
        if self.len() == 0 {
            return None;
        }
        let h = self.head.unwrap();
        let ghost c = self.chain@;
        proof {
            assert(handle_live(arena.slots(), c[0]));
            lemma_chain_bytes_front(arena.slots(), c, arena.spec_layout());
        }
        let block = arena.get(h).unwrap();
        Some(block[2 + self.read_offset as usize])
    }

    /// Removes and returns the first unread byte, freeing the head block once
    /// all its bytes are consumed.
    pub fn pop_front<A: Allocator>(&mut self, arena: &mut A) -> (r: Option<u8>)
        requires
            old(self).wf(old(arena)),
        ensures
            final(self).wf(final(arena)),
            final(arena).spec_block_size() == old(arena).spec_block_size(),
            final(arena).spec_layout() == old(arena).spec_layout(),
            frame(old(arena).slots(), final(arena).slots(), old(self).owned()),
            final(self).owned().subset_of(old(self).owned()),
            count_allocated(final(arena).slots()) <= count_allocated(old(arena).slots()),
            final(self).spec_max_len() == old(self).spec_max_len(),
            r == if old(self).contents(old(arena)).len() > 0 {
                Some(old(self).contents(old(arena))[0])
            } else {
                None::<u8>
            },
            final(self).contents(final(arena)) == if old(self).contents(old(arena)).len() > 0 {
                old(self).contents(old(arena)).drop_first()
            } else {
                old(self).contents(old(arena))
            },
            old(self).contents(old(arena)).len() == 0 ==> *final(self) == *old(self) && *final(arena) == *old(arena),
            old(self).contents(old(arena)).len() > 0 && old(self).head_done(old(arena)) ==> {
                &&& final(self).spec_chain() == old(self).spec_chain().drop_first()
                &&& final(self).spec_read_offset() == 0
                &&& final(self).spec_total() + old(self).spec_read_offset() + 1 == old(self).spec_total()
                &&& count_allocated(final(arena).slots()) + 1 == count_allocated(old(arena).slots())
            },
            old(self).contents(old(arena)).len() > 0 && !old(self).head_done(old(arena)) ==> {
                &&& final(self).spec_chain() == old(self).spec_chain()
                &&& final(self).spec_read_offset() == old(self).spec_read_offset() + 1
                &&& final(self).spec_total() == old(self).spec_total()
                &&& *final(arena) == *old(arena)
            },
    {
        proof {
            self.lemma_wf(arena);
        }
        if self.len() == 0 {
            return None;
        }
        let byte = self.peek_front(arena);
        self.read_offset = self.read_offset + 1;
        proof {
            assert(self.raw_contents(arena.slots(), arena.spec_layout()) =~= old(self).contents(old(arena)).drop_first());
        }
        let ghost p = *self;
        let ghost a0 = *arena;
        let ghost c0 = self.chain@;
        let ghost ch = chunk_len(a0.slots(), c0[0], a0.spec_layout());
        proof {
            assert(c0.len() > 0);
            assert(p.read_offset <= ch);
        }
        self.try_free_head_chunks(arena);
        proof {
            let k = c0.len();
            let k2 = self.chain@.len();
            if p.read_offset == ch {
                if k2 == k {
                    assert(self.chain@[0] == c0[0]);
                    assert(false);
                }
                assert(k2 + 1 == k);
                assert(self.chain@ =~= c0.drop_first());
            } else {
                assert(k2 == k);
            }
        }
        byte
    }

    /// Whether consuming one more byte empties the head block.
    pub open spec fn head_done<A: Allocator>(&self, a: &A) -> bool {
        &&& self.spec_chain().len() > 0
        &&& self.spec_read_offset() + 1 == chunk_len(a.slots(), self.spec_chain()[0], a.spec_layout())
    }

    /// Removes up to `count` unread bytes from the front and returns how many
    /// were removed, freeing the blocks consumed entirely.
    pub fn remove_prefix<A: Allocator>(&mut self, arena: &mut A, count: usize) -> (r: usize)
        requires
            old(self).wf(old(arena)),
        ensures
            final(self).wf(final(arena)),
            final(arena).spec_block_size() == old(arena).spec_block_size(),
            final(arena).spec_layout() == old(arena).spec_layout(),
            frame(old(arena).slots(), final(arena).slots(), old(self).owned()),
            final(self).owned().subset_of(old(self).owned()),
            count_allocated(final(arena).slots()) + old(self).spec_chain().len() == count_allocated(old(arena).slots())
                + final(self).spec_chain().len(),
            final(self).spec_max_len() == old(self).spec_max_len(),
            r == if count < old(self).spec_len() {
                count as nat
            } else {
                old(self).spec_len()
            },
            final(self).contents(final(arena)) == old(self).contents(old(arena)).subrange(r as int, old(self).spec_len() as int),
            old(self).prefix_removed(old(arena), *final(self), final(arena), count, r),
            final(self).spec_chain().len() > 0 ==> (final(self).spec_chain().len() - 2) * payload_capacity(
                final(arena).spec_block_size(),
            ) < final(self).spec_len(),
            final(self).spec_len() == 0 ==> final(self).spec_chain().len() == 0,
    {
        proof {
            self.lemma_wf(arena);
            arena.lemma_inv();
        }
        let available = self.len() as usize;
        let to_remove = if count < available {
            count
        } else {
            available
        };
        if to_remove == 0 {
            proof {
                assert(self.contents(arena).subrange(0, self.spec_len() as int) =~= self.contents(arena));
                self.lemma_block_count(arena);
            }
            return 0;
        }
        self.read_offset = self.read_offset + to_remove as u16;
        proof {
            assert(self.raw_contents(arena.slots(), arena.spec_layout()) =~= old(self).contents(old(arena)).subrange(to_remove as int, old(self).spec_len() as int));
        }
        self.try_free_head_chunks(arena);
        proof {
            self.lemma_block_count(arena);
        }
        to_remove
    }

    /// The relation between the buffer and allocator before and after
    /// `remove_prefix(count)` returned `r`.
    pub open spec fn prefix_removed<A: Allocator>(self, a0: &A, next: Self, a1: &A, count: usize, r: usize) -> bool {
        &&& next.wf(a1)
        &&& a1.spec_block_size() == a0.spec_block_size()
        &&& a1.spec_layout() == a0.spec_layout()
        &&& count_allocated(a1.slots()) + self.spec_chain().len() == count_allocated(a0.slots()) + next.spec_chain().len()
        &&& r == if count < self.spec_len() {
            count as nat
        } else {
            self.spec_len()
        }
        &&& next.contents(a1) == self.contents(a0).subrange(r as int, self.spec_len() as int)
    }

    /// Frees every block of the buffer and empties it.
    #[verifier::spinoff_prover]
    #[verifier::rlimit(40)]
    pub fn clear<A: Allocator>(&mut self, arena: &mut A)
        requires
            old(self).wf(old(arena)),
        ensures
            old(self).cleared(old(arena), *final(self), final(arena)),
            final(self).wf(final(arena)),
            final(self).is_blank(),
            final(self).spec_max_len() == old(self).spec_max_len(),
            final(arena).spec_block_size() == old(arena).spec_block_size(),
            final(arena).spec_layout() == old(arena).spec_layout(),
            frame(old(arena).slots(), final(arena).slots(), old(self).owned()),
            count_allocated(final(arena).slots()) + old(self).spec_chain().len() == count_allocated(old(arena).slots()),
            forall|s: u16| #[trigger] old(self).owned().contains(s) ==> final(arena).slots()[s as int] == crate::allocator::free_slot(
                crate::allocator::next_gen(old(arena).slots()[s as int].generation, old(arena).spec_layout()),
            ),
            old(self).spec_chain().len() == 0 ==> *final(arena) == *old(arena),
    {
        let layout = arena.bit_layout();
        let ghost s0 = arena.slots();
        let ghost c = self.chain@;
        let ghost bs = arena.spec_block_size();
        let mut cursor = self.head;
        let ghost mut i: int = 0;
        proof {
            arena.lemma_inv();
            assert(slots_of(c.subrange(0, 0)) =~= Set::<u16>::empty());
        }
        while cursor.is_some()
            invariant
                arena.inv(),
                arena.spec_block_size() == bs,
                arena.spec_layout() == layout,
                bs == old(arena).spec_block_size(),
                layout == old(arena).spec_layout(),
                s0 == old(arena).slots(),
                c == old(self).chain@,
                old(self).wf(old(arena)),
                0 <= i <= c.len(),
                cursor == if i < c.len() {
                    Some(c[i])
                } else {
                    None::<Handle>
                },
                arena.slots().len() == s0.len(),
                forall|s: u16| s < s0.len() ==> #[trigger] arena.slots()[s as int] == if slots_of(c.subrange(0, i)).contains(s) {
                    crate::allocator::free_slot(crate::allocator::next_gen(s0[s as int].generation, layout))
                } else {
                    s0[s as int]
                },
                count_allocated(arena.slots()) + i == count_allocated(s0),
                i == 0 ==> *arena == *old(arena),
            decreases c.len() - i,
        {
            let h = cursor.unwrap();
            let ghost s1 = arena.slots();
            proof {
                assert(handle_live(s0, c[i]));
                assert(!slots_of(c.subrange(0, i)).contains(c[i].slot)) by {
                    if slots_of(c.subrange(0, i)).contains(c[i].slot) {
                        let j = choose|j: int| 0 <= j < i && (#[trigger] c.subrange(0, i)[j]).slot == c[i].slot;
                        assert(c.subrange(0, i)[j] == c[j]);
                    }
                }
                assert(s1[c[i].slot as int] == s0[c[i].slot as int]);
            }
            cursor = match arena.get(h) {
                Some(block) => get_next_handle(block, &layout),
                None => None,
            };
            let ok = arena.free(h);
            proof {
                assert(ok);
                let s2 = arena.slots();
                lemma_count_update(s1, h.slot as int, s2[h.slot as int]);
                assert(slots_of(c.subrange(0, i + 1)) =~= slots_of(c.subrange(0, i)).insert(c[i].slot)) by {
                    assert forall|sl: u16| #[trigger] slots_of(c.subrange(0, i + 1)).contains(sl) implies slots_of(c.subrange(0, i)).insert(c[i].slot).contains(sl) by {
                        let j = choose|j: int| 0 <= j < i + 1 && (#[trigger] c.subrange(0, i + 1)[j]).slot == sl;
                        if j < i {
                            assert(c.subrange(0, i)[j] == c.subrange(0, i + 1)[j]);
                        }
                    }
                    assert forall|sl: u16| #[trigger] slots_of(c.subrange(0, i)).insert(c[i].slot).contains(sl) implies slots_of(c.subrange(0, i + 1)).contains(sl) by {
                        if sl == c[i].slot {
                            assert(c.subrange(0, i + 1)[i] == c[i]);
                        } else {
                            let j = choose|j: int| 0 <= j < i && (#[trigger] c.subrange(0, i)[j]).slot == sl;
                            assert(c.subrange(0, i + 1)[j] == c.subrange(0, i)[j]);
                        }
                    }
                }
                if i + 1 < c.len() {
                    assert(link_of(s0, c[i], layout) == Some(c[i + 1]));
                } else {
                    assert(c[i] == c.last());
                }
                i = i + 1;
            }
        }
        self.head = None;
        self.tail = None;
        self.len = 0;
        self.read_offset = 0;
        self.chain = Ghost(Seq::empty());
        proof {
            assert(c.subrange(0, c.len() as int) =~= c);
            self.lemma_blank_wf(arena);
            assert(frame(s0, arena.slots(), old(self).owned()));
        }
    }

    /// The relation between the buffer and allocator before and after
    /// `clear`.
    pub closed spec fn cleared<A: Allocator>(self, a0: &A, next: Self, a1: &A) -> bool {
        &&& next.is_blank()
        &&& next.max_len == self.max_len
        &&& a1.spec_block_size() == a0.spec_block_size()
        &&& a1.spec_layout() == a0.spec_layout()
        &&& count_allocated(a1.slots()) + self.chain@.len() == count_allocated(a0.slots())
        &&& self.chain@.len() == 0 ==> *a1 == *a0
    }

    /// The unread byte at position `n`, if there is one.
    pub fn peek_n<A: Allocator>(&self, arena: &A, n: usize) -> (r: Option<u8>)
        requires
            self.wf(arena),
        ensures
            r == if n < self.contents(arena).len() {
                Some(self.contents(arena)[n as int])
            } else {
                None::<u8>
            },
    {
        proof {
            self.lemma_wf(arena);
        }
        if n >= self.len() as usize {
            return None;
        }
        let all = self.chain_vec(arena);
        Some(all[self.read_offset as usize + n])
    }

    /// Position of the first unread byte that satisfies `predicate`.
    pub fn position<A: Allocator, P: Fn(u8) -> bool>(&self, arena: &A, predicate: P) -> (r: Option<usize>)
        requires
            self.wf(arena),
            forall|b: u8| predicate.requires((b,)),
        ensures
            match r {
                Some(i) => {
                    &&& i < self.contents(arena).len()
                    &&& predicate.ensures((self.contents(arena)[i as int],), true)
                    &&& forall|j: int| 0 <= j < i ==> predicate.ensures((#[trigger] self.contents(arena)[j],), false)
                },
                None => forall|j: int| 0 <= j < self.contents(arena).len() ==> predicate.ensures((#[trigger] self.contents(arena)[j],), false),
            },
    {
        let v = self.to_vec(arena);
        let mut i: usize = 0;
        while i < v.len()
            invariant
                v@ == self.contents(arena),
                0 <= i <= v@.len(),
                forall|b: u8| predicate.requires((b,)),
                forall|j: int| 0 <= j < i ==> predicate.ensures((#[trigger] v@[j],), false),
            decreases v@.len() - i,
        {
            if predicate(v[i]) {
                return Some(i);
            }
            i = i + 1;
        }
        None
    }

    /// Removes unread bytes up to and including the first `delimiter` and
    /// returns how many; `None`, and nothing removed, when the delimiter does
    /// not occur.
    pub fn consume_until<A: Allocator>(&mut self, arena: &mut A, delimiter: u8) -> (r: Option<usize>)
        requires
            old(self).wf(old(arena)),
        ensures
            final(self).wf(final(arena)),
            final(arena).spec_block_size() == old(arena).spec_block_size(),
            final(arena).spec_layout() == old(arena).spec_layout(),
            frame(old(arena).slots(), final(arena).slots(), old(self).owned()),
            final(self).owned().subset_of(old(self).owned()),
            final(self).spec_max_len() == old(self).spec_max_len(),
            match r {
                Some(n) => {
                    &&& 0 < n <= old(self).contents(old(arena)).len()
                    &&& old(self).contents(old(arena))[n - 1] == delimiter
                    &&& forall|j: int| 0 <= j < n - 1 ==> #[trigger] old(self).contents(old(arena))[j] != delimiter
                    &&& final(self).contents(final(arena)) == old(self).contents(old(arena)).subrange(n as int, old(self).contents(old(arena)).len() as int)
                },
                None => {
                    &&& !old(self).contents(old(arena)).contains(delimiter)
                    &&& *final(self) == *old(self)
                    &&& final(arena).slots() == old(arena).slots()
                },
            },
    {
        proof {
            self.lemma_wf(arena);
        }
        let v = self.to_vec(arena);
        let mut i: usize = 0;
        while i < v.len()
            invariant
                old(self).wf(old(arena)),
                v@ == old(self).contents(old(arena)),
                v@.len() == old(self).spec_len(),
                *self == *old(self),
                *arena == *old(arena),
                0 <= i <= v@.len(),
                forall|j: int| 0 <= j < i ==> #[trigger] v@[j] != delimiter,
            decreases v@.len() - i,
        {
            if v[i] == delimiter {
                let n = self.remove_prefix(arena, i + 1);
                return Some(n);
            }
            i = i + 1;
        }
        None
    }

    /// Moves up to `count` unread bytes from the front of this buffer to the
    /// back of `other`, stopping when `other` refuses a byte; returns how
    /// many moved. A byte `other` refuses stays in this buffer.
    #[verifier::spinoff_prover]
    #[verifier::rlimit(40)]
    pub fn drain_into<A: Allocator>(&mut self, arena: &mut A, other: &mut ByteBuffer, count: usize) -> (r: usize)
        requires
            old(self).wf(old(arena)),
            old(other).wf(old(arena)),
            old(self).owned().disjoint(old(other).owned()),
        ensures
            final(self).wf(final(arena)),
            final(other).wf(final(arena)),
            final(self).owned().disjoint(final(other).owned()),
            final(arena).spec_block_size() == old(arena).spec_block_size(),
            final(arena).spec_layout() == old(arena).spec_layout(),
            final(self).spec_max_len() == old(self).spec_max_len(),
            final(other).spec_max_len() == old(other).spec_max_len(),
            final(other).spec_read_offset() == old(other).spec_read_offset(),
            r <= count,
            r <= old(self).spec_len(),
            final(self).contents(final(arena)) == old(self).contents(old(arena)).subrange(r as int, old(self).spec_len() as int),
            final(other).contents(final(arena)) == old(other).contents(old(arena)) + old(self).contents(old(arena)).subrange(0, r as int),
            ({
                let want = if count < old(self).spec_len() {
                    count as nat
                } else {
                    old(self).spec_len()
                };
                want <= old(other).headroom() && want <= old(other).room(old(arena)) ==> r == want
            }),
    {
        proof {
            self.lemma_wf(arena);
            other.lemma_wf(arena);
        }
        let available = self.len() as usize;
        let to_move = if count < available {
            count
        } else {
            available
        };
        let mut moved: usize = 0;
        let ghost c0 = self.contents(arena);
        let ghost o0 = other.contents(arena);
        let ghost h0 = other.headroom();
        let ghost r0 = other.room(arena);
        while moved < to_move
            invariant
                self.wf(arena),
                other.wf(arena),
                self.owned().disjoint(other.owned()),
                arena.spec_block_size() == old(arena).spec_block_size(),
                arena.spec_layout() == old(arena).spec_layout(),
                self.spec_max_len() == old(self).spec_max_len(),
                other.spec_max_len() == old(other).spec_max_len(),
                other.spec_read_offset() == old(other).spec_read_offset(),
                c0 == old(self).contents(old(arena)),
                o0 == old(other).contents(old(arena)),
                h0 == old(other).headroom(),
                r0 == old(other).room(old(arena)),
                to_move <= c0.len(),
                to_move <= count,
                moved <= to_move,
                self.contents(arena) == c0.subrange(moved as int, c0.len() as int),
                other.contents(arena) == o0 + c0.subrange(0, moved as int),
                other.headroom() + moved == h0,
                other.room(arena) + moved >= r0,
            ensures
                moved == to_move || h0 <= moved || r0 <= moved,
            decreases to_move - moved,
        {
            proof {
                self.lemma_wf(arena);
            }
            let byte = self.peek_front(arena).unwrap();
            let ghost a1 = *arena;
            let ghost ob = *other;
            let res = other.append(arena, byte);
            if let Err(e) = res {
                proof {
                    match e {
                        ByteBufferError::Full => assert(ob.is_full()),
                        ByteBufferError::AllocationFailed => assert(ob.room(&a1) == 0),
                        ByteBufferError::Uninitialized => assert(false),
                    }
                    assert(ob.headroom() == 0 || ob.room(&a1) == 0);
                }
                break;
            }
            proof {
                ob.lemma_appended(&a1, *other, arena, byte);
                self.lemma_frame(&a1, arena, ob.owned());
                assert(self.owned().disjoint(other.owned())) by {
                    assert forall|sl: u16| #[trigger] self.owned().contains(sl) implies !other.owned().contains(sl) by {
                        self.lemma_wf(&a1);
                    }
                }
            }
            let ghost a2 = *arena;
            let ghost sb = *self;
            let ghost room2 = other.room(arena);
            let popped = self.pop_front(arena);
            proof {
                other.lemma_frame(&a2, arena, sb.owned());
                lemma_count_bound(a2.slots());
                lemma_room_grows(a2.slots(), arena.slots(), a2.spec_block_size());
                assert(other.tail_room(arena.slots(), arena.spec_layout(), arena.spec_block_size()) == other.tail_room(a2.slots(), a2.spec_layout(), a2.spec_block_size())) by {
                    other.lemma_tail_same(&a2, arena, sb.owned());
                }
                assert(self.owned().disjoint(other.owned()));
                assert(c0.subrange(moved + 1, c0.len() as int) =~= c0.subrange(moved as int, c0.len() as int).drop_first());
                assert(o0 + c0.subrange(0, moved + 1) =~= (o0 + c0.subrange(0, moved as int)).push(c0[moved as int]));
            }
            moved = moved + 1;
        }
        moved
    }

    /// Removes unread bytes from the front while `predicate` holds of them;
    /// returns how many were removed.
    #[verifier::spinoff_prover]
    #[verifier::rlimit(40)]
    pub fn skip_while<A: Allocator, F: Fn(u8) -> bool>(&mut self, arena: &mut A, predicate: F) -> (r: usize)
        requires
            old(self).wf(old(arena)),
            forall|b: u8| predicate.requires((b,)),
        ensures
            final(self).wf(final(arena)),
            final(arena).spec_block_size() == old(arena).spec_block_size(),
            final(arena).spec_layout() == old(arena).spec_layout(),
            frame(old(arena).slots(), final(arena).slots(), old(self).owned()),
            final(self).owned().subset_of(old(self).owned()),
            final(self).spec_max_len() == old(self).spec_max_len(),
            r <= old(self).contents(old(arena)).len(),
            final(self).contents(final(arena)) == old(self).contents(old(arena)).subrange(r as int, old(self).contents(old(arena)).len() as int),
            forall|j: int| 0 <= j < r ==> predicate.ensures((#[trigger] old(self).contents(old(arena))[j],), true),
            r < old(self).contents(old(arena)).len() ==> predicate.ensures((old(self).contents(old(arena))[r as int],), false),
    {
        let ghost c0 = self.contents(arena);
        let mut count: usize = 0;
        proof {
            self.lemma_wf(arena);
        }
        loop
            invariant
                self.wf(arena),
                forall|b: u8| predicate.requires((b,)),
                arena.spec_block_size() == old(arena).spec_block_size(),
                arena.spec_layout() == old(arena).spec_layout(),
                frame(old(arena).slots(), arena.slots(), old(self).owned()),
                self.owned().subset_of(old(self).owned()),
                self.spec_max_len() == old(self).spec_max_len(),
                c0 == old(self).contents(old(arena)),
                c0.len() <= MAX_BUFFER_LEN,
                count <= c0.len(),
                self.contents(arena) == c0.subrange(count as int, c0.len() as int),
                forall|j: int| 0 <= j < count ==> predicate.ensures((#[trigger] c0[j],), true),
            ensures
                count <= c0.len(),
                self.contents(arena) == c0.subrange(count as int, c0.len() as int),
                count < c0.len() ==> predicate.ensures((c0[count as int],), false),
            decreases c0.len() - count,
        {
            let byte = match self.peek_front(arena) {
                Some(b) => b,
                None => break,
            };
            if !predicate(byte) {
                break;
            }
            let ghost a1 = *arena;
            let ghost b1 = *self;
            self.pop_front(arena);
            proof {
                lemma_frame_trans(old(arena).slots(), a1.slots(), arena.slots(), old(self).owned(), b1.owned());
                assert(c0.subrange(count + 1, c0.len() as int) =~= c0.subrange(count as int, c0.len() as int).drop_first());
            }
            count = count + 1;
        }
        count
    }

    /// Moves up to `dest.len()` unread bytes from the front into `dest`;
    /// returns how many.
    #[verifier::spinoff_prover]
    #[verifier::rlimit(40)]
    pub fn copy_prefix_to<A: Allocator>(&mut self, arena: &mut A, dest: &mut [u8]) -> (r: usize)
        requires
            old(self).wf(old(arena)),
        ensures
            final(self).wf(final(arena)),
            final(arena).spec_block_size() == old(arena).spec_block_size(),
            final(arena).spec_layout() == old(arena).spec_layout(),
            frame(old(arena).slots(), final(arena).slots(), old(self).owned()),
            final(self).owned().subset_of(old(self).owned()),
            final(self).spec_max_len() == old(self).spec_max_len(),
            r == if old(dest)@.len() < old(self).spec_len() {
                old(dest)@.len()
            } else {
                old(self).spec_len()
            },
            final(dest)@ == old(self).contents(old(arena)).subrange(0, r as int) + old(dest)@.subrange(r as int, old(dest)@.len() as int),
            final(self).contents(final(arena)) == old(self).contents(old(arena)).subrange(r as int, old(self).spec_len() as int),
    {
        proof {
            self.lemma_wf(arena);
        }
        let available = self.len() as usize;
        let to_copy = if dest.len() < available {
            dest.len()
        } else {
            available
        };
        let ghost c0 = self.contents(arena);
        let ghost d0 = dest@;
        let mut i: usize = 0;
        while i < to_copy
            invariant
                self.wf(arena),
                arena.spec_block_size() == old(arena).spec_block_size(),
                arena.spec_layout() == old(arena).spec_layout(),
                frame(old(arena).slots(), arena.slots(), old(self).owned()),
                self.owned().subset_of(old(self).owned()),
                self.spec_max_len() == old(self).spec_max_len(),
                c0 == old(self).contents(old(arena)),
                d0 == old(dest)@,
                to_copy <= c0.len(),
                to_copy <= d0.len(),
                i <= to_copy,
                dest@.len() == d0.len(),
                self.contents(arena) == c0.subrange(i as int, c0.len() as int),
                dest@ == c0.subrange(0, i as int) + d0.subrange(i as int, d0.len() as int),
            decreases to_copy - i,
        {
            let ghost a1 = *arena;
            let ghost b1 = *self;
            proof {
                self.lemma_wf(arena);
            }
            let byte = self.pop_front(arena).unwrap();
            dest[i] = byte;
            proof {
                lemma_frame_trans(old(arena).slots(), a1.slots(), arena.slots(), old(self).owned(), b1.owned());
                assert(c0.subrange(i + 1, c0.len() as int) =~= c0.subrange(i as int, c0.len() as int).drop_first());
                assert(dest@ =~= c0.subrange(0, i + 1) + d0.subrange(i + 1, d0.len() as int));
            }
            i = i + 1;
        }
        to_copy
    }

    /// Moves the first `at` unread bytes into a new buffer. Fails with
    /// `Full`, changing nothing, when fewer bytes are available; fails with
    /// `AllocationFailed` when the allocator runs out on the way, in which case
    /// the bytes moved so far are released along with the new buffer.
    #[verifier::spinoff_prover]
    #[verifier::rlimit(40)]
    pub fn split_off_front<A: Allocator>(&mut self, arena: &mut A, at: usize) -> (r: Result<ByteBuffer, ByteBufferError>)
        requires
            old(self).wf(old(arena)),
        ensures
            final(self).wf(final(arena)),
            final(arena).spec_block_size() == old(arena).spec_block_size(),
            final(arena).spec_layout() == old(arena).spec_layout(),
            final(self).spec_max_len() == old(self).spec_max_len(),
            at > old(self).spec_len() ==> r == Err::<ByteBuffer, ByteBufferError>(ByteBufferError::Full)
                && *final(self) == *old(self) && *final(arena) == *old(arena),
            at <= old(self).spec_len() && at <= free_slots(old(arena).slots()) * payload_capacity(old(arena).spec_block_size()) ==> r is Ok,
            match r {
                Ok(front) => {
                    &&& front.wf(final(arena))
                    &&& front.owned().disjoint(final(self).owned())
                    &&& front.spec_max_len() is None
                    &&& front.contents(final(arena)) == old(self).contents(old(arena)).subrange(0, at as int)
                    &&& final(self).contents(final(arena)) == old(self).contents(old(arena)).subrange(at as int, old(self).spec_len() as int)
                },
                Err(e) => at <= old(self).spec_len() ==> e == ByteBufferError::AllocationFailed,
            },
    {
        proof {
            self.lemma_wf(arena);
        }
        if at > self.len() as usize {
            return Err(ByteBufferError::Full);
        }
        let mut front = ByteBuffer::new();
        proof {
            front.lemma_blank_wf(arena);
            assert(front.headroom() == MAX_BUFFER_LEN);
            assert(front.tail_room(arena.slots(), arena.spec_layout(), arena.spec_block_size()) == 0);
            assert(self.owned().disjoint(front.owned()));
        }
        let moved = self.drain_into(arena, &mut front, at);
        if moved < at {
            let ghost a1 = *arena;
            let ghost f1 = front;
            front.clear(arena);
            proof {
                self.lemma_frame(&a1, arena, f1.owned());
            }
            return Err(ByteBufferError::AllocationFailed);
        }
        proof {
            assert(old(self).contents(old(arena)).subrange(0, at as int) =~= Seq::<u8>::empty() + old(self).contents(old(arena)).subrange(0, at as int));
        }
        Ok(front)
    }

    /// Takes over the bytes of `src`, which is left empty with this buffer's
    /// former length limit. Blocks this buffer held before are not freed.
    pub fn move_from(&mut self, src: &mut Self)
        ensures
            *final(self) == *old(src),
            final(src).is_blank(),
            final(src).spec_max_len() == old(self).spec_max_len(),
    {
        let limit = self.max_len;
        *self = *src;
        *src = ByteBuffer::new();
        src.max_len = limit;
    }

    /// Moves every byte into a new buffer and leaves this one empty.
    pub fn drain(&mut self) -> (r: Self)
        ensures
            r == *old(self),
            final(self).is_blank(),
            final(self).spec_max_len() is None,
    {
        let mut drained = Self::new();
        drained.move_from(self);
        drained
    }

    /// Appends to this buffer the unread bytes of `src` at positions
    /// `range.start` up to `range.end` (or to the end of `src`), as
    /// `extend` does.
    pub fn copy_from<A: Allocator>(&mut self, arena: &mut A, src: &ByteBuffer, range: core::ops::Range<usize>) -> (r: Result<(), ByteBufferError>)
        requires
            old(self).wf(old(arena)),
            src.wf(old(arena)),
            old(self).owned().disjoint(src.owned()),
            range.start <= range.end,
        ensures
            extended(*old(self), old(arena), *final(self), final(arena), copied_range(src.contents(old(arena)), range.start as nat, range.end as nat)),
            src.wf(final(arena)),
            src.contents(final(arena)) == src.contents(old(arena)),
            final(self).owned().disjoint(src.owned()),
    {
        let all = src.to_vec(arena);
        let mut part: Vec<u8> = Vec::new();
        let mut k: usize = range.start;
        let end = if range.end < all.len() {
            range.end
        } else {
            all.len()
        };
        let ghost v = all@;
        while k < end
            invariant
                v == all@,
                range.start <= k,
                k <= end || end < range.start,
                end <= v.len(),
                k <= end ==> part@ == v.subrange(range.start as int, k as int),
                k > end ==> part@.len() == 0,
            decreases end - k,
        {
            part.push(all[k]);
            proof {
                assert(v.subrange(range.start as int, k + 1) =~= v.subrange(range.start as int, k as int).push(v[k as int]));
            }
            k = k + 1;
        }
        proof {
            if end < range.start {
                assert(copied_range(v, range.start as nat, range.end as nat) =~= Seq::<u8>::empty());
                assert(part@ =~= Seq::<u8>::empty());
            }
        }
        let ghost a0 = *arena;
        let ghost b0 = *self;
        let res = self.extend(arena, part.as_slice());
        proof {
            src.lemma_frame(&a0, arena, b0.owned());
            assert forall|sl: u16| #[trigger] self.owned().contains(sl) implies !src.owned().contains(sl) by {
                src.lemma_wf(&a0);
            }
        }
        res
    }

    /// A read-only view of the buffer over `arena`.
    pub fn read<'a, A: Allocator>(&'a self, arena: &'a A) -> (r: ByteBufferRead<'a, A>)
        ensures
            r.arena == arena,
            r.buf == self,
    {
        ByteBufferRead { arena, buf: self }
    }
}

} // verus!

verus! {

impl Default for ByteBuffer {
    fn default() -> (r: Self)
        ensures
            r.is_blank(),
            r.spec_max_len() is None,
    {
        ByteBuffer::new()
    }
}

/// A buffer read through the allocator that holds its blocks.
pub struct ByteBufferRead<'a, A: Allocator> {
    /// The allocator holding the buffer's blocks.
    pub arena: &'a A,
    /// The buffer.
    pub buf: &'a ByteBuffer,
}

impl<'a, A: Allocator> ByteBufferRead<'a, A> {
    /// Bytes held in the buffer's blocks, consumed ones included.
    pub fn len(&self) -> (r: u16)
        ensures
            r == self.buf.spec_total(),
    {
        self.buf.len
    }

    /// Whether the buffer's blocks hold no byte.
    pub fn is_empty(&self) -> (r: bool)
        ensures
            r == (self.buf.spec_total() == 0),
    {
        self.buf.len == 0
    }

    /// Every byte held in the buffer's blocks, head first, consumed ones
    /// included.
    pub fn bytes(&self) -> (r: Vec<u8>)
        requires
            self.buf.wf(self.arena),
        ensures
            r@ == chain_bytes(self.arena.slots(), self.buf.spec_chain(), self.arena.spec_layout()),
            r@.len() == self.buf.spec_total(),
            r@.subrange(self.buf.spec_read_offset() as int, self.buf.spec_total() as int) == self.buf.contents(self.arena),
            self.buf.spec_read_offset() == 0 ==> r@ == self.buf.contents(self.arena),
    {
        proof {
            self.buf.lemma_wf(self.arena);
            let c = chain_bytes(self.arena.slots(), self.buf.spec_chain(), self.arena.spec_layout());
            assert(c.subrange(0, c.len() as int) =~= c);
        }
        self.buf.chain_vec(self.arena)
    }

    /// The payload of each block, head first.
    pub fn chunk_list(&self) -> (r: Vec<Vec<u8>>)
        requires
            self.buf.wf(self.arena),
        ensures
            r@.len() == self.buf.spec_chain().len(),
            forall|i: int| 0 <= i < r@.len() ==> (#[trigger] r@[i])@ == payload(
                self.arena.slots(),
                self.buf.spec_chain()[i],
                self.arena.spec_layout(),
            ),
    {
        self.buf.chunk_vecs(self.arena)
    }

    /// A cursor over the payloads of the buffer's blocks, head first.
    pub fn chunks(&self) -> (r: ByteChunkIter<'a, A>)
        requires
            self.buf.wf(self.arena),
        ensures
            r.iter_ok(),
            r.arena == self.arena,
            r.spec_remaining() == self.buf.spec_chain(),
            chain_bytes(self.arena.slots(), r.spec_remaining(), self.arena.spec_layout()).len()
                == self.buf.spec_total(),
    {
        proof {
            self.buf.lemma_wf(self.arena);
        }
        ByteChunkIter { arena: self.arena, next_handle: self.buf.head, remaining: Ghost(self.buf.chain@) }
    }
}

/// A cursor over the payloads of a chain of blocks.
pub struct ByteChunkIter<'a, A: Allocator> {
    /// The allocator holding the blocks.
    pub arena: &'a A,
    /// The next block to read.
    pub next_handle: Option<Handle>,
    /// The blocks not read yet.
    pub remaining: Ghost<Seq<Handle>>,
}

impl<'a, A: Allocator> ByteChunkIter<'a, A> {
    /// The blocks not read yet.
    pub closed spec fn spec_remaining(&self) -> Seq<Handle> {
        self.remaining@
    }

    /// The remaining blocks form an intact chain starting at `next_handle`.
    pub closed spec fn iter_ok(&self) -> bool {
        let c = self.remaining@;
        &&& self.arena.inv()
        &&& model_ok(self.arena.slots(), self.arena.spec_block_size(), self.arena.spec_layout())
        &&& chain_ok(self.arena.slots(), c, self.arena.spec_layout(), self.arena.spec_block_size())
        &&& self.next_handle == if c.len() > 0 {
            Some(c[0])
        } else {
            None::<Handle>
        }
    }

    /// The payload of the next block, if any, moving past it.
    pub fn next(&mut self) -> (r: Option<&'a [u8]>)
        requires
            old(self).iter_ok(),
        ensures
            final(self).iter_ok(),
            final(self).arena == old(self).arena,
            old(self).spec_remaining().len() == 0 ==> r is None && final(self).spec_remaining().len() == 0,
            old(self).spec_remaining().len() > 0 ==> {
                &&& r is Some
                &&& r.unwrap()@ == payload(
                    old(self).arena.slots(),
                    old(self).spec_remaining()[0],
                    old(self).arena.spec_layout(),
                )
                &&& final(self).spec_remaining() == old(self).spec_remaining().drop_first()
                &&& r.unwrap()@.len() == chunk_len(
                    old(self).arena.slots(),
                    old(self).spec_remaining()[0],
                    old(self).arena.spec_layout(),
                )
                &&& chain_bytes(old(self).arena.slots(), old(self).spec_remaining(), old(self).arena.spec_layout())
                    == r.unwrap()@ + chain_bytes(
                    old(self).arena.slots(),
                    final(self).spec_remaining(),
                    old(self).arena.spec_layout(),
                )
            },
    {
        let h = match self.next_handle {
            Some(h) => h,
            None => return None,
        };
        let layout = self.arena.bit_layout();
        let ghost c = self.remaining@;
        let ghost slots = self.arena.slots();
        proof {
            assert(handle_live(slots, c[0]));
            lemma_drop_head(slots, slots, c, layout, self.arena.spec_block_size());
            lemma_chain_bytes_front(slots, c, layout);
        }
        let block = self.arena.get(h).unwrap();
        let data = crate::header::get_data(block, &layout);
        self.next_handle = get_next_handle(block, &layout);
        self.remaining = Ghost(c.drop_first());
        proof {
            if c.len() > 1 {
                assert(c.drop_first()[0] == c[1]);
            }
        }
        Some(data)
    }
}

/// The number of bytes an extend of `n` bytes gets in, given the room left
/// under the length limit and in the allocator.
pub open spec fn accepted(n: nat, headroom: nat, room: nat) -> nat {
    if n <= headroom && n <= room {
        n
    } else if headroom <= room {
        headroom
    } else {
        room
    }
}

/// Frames compose when the second owner set grew only into free slots.
pub proof fn lemma_frame_trans(
    s0: Seq<SlotState>,
    s1: Seq<SlotState>,
    s2: Seq<SlotState>,
    o0: Set<u16>,
    o1: Set<u16>,
)
    requires
        frame(s0, s1, o0),
        frame(s1, s2, o1),
        owned_growth(o0, o1, s0) || o1.subset_of(o0),
    ensures
        frame(s0, s2, o0),
{
    assert forall|s: u16| s < s0.len() && s0[s as int].allocated && !o0.contains(s) implies #[trigger] s2[s as int] == s0[s as int] by {
        assert(s1[s as int] == s0[s as int]);
        if o1.contains(s) {
            assert(!o1.subset_of(o0));
        }
    }
}

/// Owner-set growth composes along a frame.
pub proof fn lemma_growth_trans(
    o0: Set<u16>,
    o1: Set<u16>,
    o2: Set<u16>,
    s0: Seq<SlotState>,
    s1: Seq<SlotState>,
)
    requires
        owned_growth(o0, o1, s0),
        owned_growth(o1, o2, s1),
        frame(s0, s1, o0),
    ensures
        owned_growth(o0, o2, s0),
{
    assert forall|s: u16| #[trigger] o2.contains(s) implies o0.contains(s) || (s < s0.len() && !s0[s as int].allocated) by {
        if !o1.contains(s) && !o0.contains(s) {
            if s0[s as int].allocated {
                assert(s1[s as int] == s0[s as int]);
            }
        }
    }
}

/// Freeing slots only adds room.
pub proof fn lemma_room_grows(s0: Seq<SlotState>, s1: Seq<SlotState>, bs: nat)
    requires
        s1.len() == s0.len(),
        count_allocated(s1) <= count_allocated(s0),
        count_allocated(s0) <= s0.len(),
    ensures
        free_slots(s1) * payload_capacity(bs) >= free_slots(s0) * payload_capacity(bs),
{
    vstd::arithmetic::mul::lemma_mul_inequality(
        free_slots(s0) as int,
        free_slots(s1) as int,
        payload_capacity(bs) as int,
    );
}

/// The buffer and allocator after `b0` in `a0` was extended with `data`.
pub open spec fn extended<A: Allocator>(b0: ByteBuffer, a0: &A, b1: ByteBuffer, a1: &A, data: Seq<u8>) -> bool {
    &&& b1.wf(a1)
    &&& a1.spec_block_size() == a0.spec_block_size()
    &&& a1.spec_layout() == a0.spec_layout()
    &&& count_allocated(a1.slots()) + b0.spec_chain().len() == count_allocated(a0.slots()) + b1.spec_chain().len()
    &&& b1.spec_max_len() == b0.spec_max_len()
    &&& b1.spec_read_offset() == b0.spec_read_offset()
    &&& b1.spec_total() == b0.spec_total() + accepted(data.len(), b0.headroom(), b0.room(a0))
    &&& b1.room(a1) + accepted(data.len(), b0.headroom(), b0.room(a0)) == b0.room(a0)
    &&& b1.contents(a1) == b0.contents(a0) + data.subrange(0, accepted(data.len(), b0.headroom(), b0.room(a0)) as int)
}

/// Writing bytes that fit into an empty buffer and reading the buffer back
/// gives those bytes, and its length is their number.
pub proof fn lemma_round_trip<A: Allocator>(b0: ByteBuffer, a0: &A, b1: ByteBuffer, a1: &A, data: Seq<u8>)
    requires
        b0.wf(a0),
        b0.contents(a0).len() == 0,
        data.len() <= b0.headroom(),
        data.len() <= b0.room(a0),
        extended(b0, a0, b1, a1, data),
    ensures
        b1.contents(a1) == data,
        b1.spec_len() == data.len(),
{
    assert(data.subrange(0, data.len() as int) =~= data);
    assert(b1.contents(a1) =~= data);
    b1.lemma_wf(a1);
}

/// A buffer limited to `m` bytes takes `m` bytes, when the allocator has
/// room for them, and is then full: a further append fails with `Full` and
/// leaves the length at `m`.
pub proof fn lemma_max_len_reached<A: Allocator>(b0: ByteBuffer, a0: &A, b1: ByteBuffer, a1: &A, m: u16, data: Seq<u8>)
    requires
        b0.is_blank(),
        a0.inv(),
        b0.spec_max_len() == Some(m),
        data.len() == m,
        data.len() <= b0.room(a0),
        extended(b0, a0, b1, a1, data),
    ensures
        b1.contents(a1) == data,
        b1.spec_len() == m,
        b1.is_full(),
{
    b0.lemma_blank_wf(a0);
    lemma_round_trip(b0, a0, b1, a1, data);
    b1.lemma_wf(a1);
}

/// Clearing a buffer that holds no block leaves the allocator as it was, and
/// clearing twice is clearing once.
pub proof fn lemma_clear_idempotent<A: Allocator>(b0: ByteBuffer, a0: &A, b1: ByteBuffer, a1: &A, b2: ByteBuffer, a2: &A)
    requires
        b0.cleared(a0, b1, a1),
        b1.cleared(a1, b2, a2),
    ensures
        b0.spec_chain().len() == 0 ==> *a1 == *a0,
        *a2 == *a1,
        b2 == b1,
        b2.spec_len() == 0,
        count_allocated(a2.slots()) == count_allocated(a1.slots()),
{
    assert(b1.chain@ =~= b2.chain@);
}

/// The bytes of `v` from `start` up to `end`, or to the end of `v`.
pub open spec fn copied_range(v: Seq<u8>, start: nat, end: nat) -> Seq<u8> {
    let e = if end < v.len() {
        end
    } else {
        v.len()
    };
    if start <= e {
        v.subrange(start as int, e as int)
    } else {
        Seq::empty()
    }
}

/// A chain of full blocks holds a full payload per block.
proof fn lemma_full_len(slots: Seq<SlotState>, c: Seq<Handle>, l: BitLayout, cap: nat)
    requires
        forall|i: int| 0 <= i < c.len() ==> chunk_len(slots, #[trigger] c[i], l) == cap && 2 + chunk_len(slots, c[i], l) <= block_of(slots, c[i]).len(),
    ensures
        chain_bytes(slots, c, l).len() == c.len() * cap,
    decreases c.len(),
{
    if c.len() > 0 {
        let pre = c.drop_last();
        assert forall|i: int| 0 <= i < pre.len() implies chunk_len(slots, #[trigger] pre[i], l) == cap && 2 + chunk_len(slots, pre[i], l) <= block_of(slots, pre[i]).len() by {
            assert(pre[i] == c[i]);
        }
        lemma_full_len(slots, pre, l, cap);
        assert(c[c.len() - 1] == c.last());
        assert((c.len() - 1) * cap + cap == c.len() * cap) by (nonlinear_arith);
    }
}

/// Filling one block's payload and one byte more takes two blocks; removing
/// the first block's bytes then frees it, leaving one block whose first
/// byte is the one that started the second block.
#[verifier::spinoff_prover]
#[verifier::rlimit(40)]
pub proof fn lemma_chunk_reclamation<A: Allocator>(
    b0: ByteBuffer,
    a0: &A,
    data: Seq<u8>,
    b1: ByteBuffer,
    a1: &A,
    b2: ByteBuffer,
    a2: &A,
    r: usize,
)
    requires
        b0.is_blank(),
        b0.spec_max_len() is None,
        a0.inv(),
        payload_capacity(a0.spec_block_size()) >= 1,
        free_slots(a0.slots()) >= 2,
        data.len() == payload_capacity(a0.spec_block_size()) + 1,
        extended(b0, a0, b1, a1, data),
        b1.prefix_removed(a1, b2, a2, (data.len() - 1) as usize, r),
    ensures
        b1.contents(a1) == data,
        count_allocated(a1.slots()) == count_allocated(a0.slots()) + 2,
        count_allocated(a2.slots()) == count_allocated(a0.slots()) + 1,
        b2.contents(a2).len() == 1,
        b2.contents(a2)[0] == data[data.len() - 1],
{
    let bs = a0.spec_block_size();
    let cap = payload_capacity(bs) as int;
    let l = a0.spec_layout();
    b0.lemma_blank_wf(a0);
    a0.lemma_inv();
    vstd::arithmetic::power2::lemma2_to64();
    if l.len_bits < 15 {
        vstd::arithmetic::power2::lemma_pow2_strictly_increases(l.len_bits as nat, 15);
    }
    let f = free_slots(a0.slots()) as int;
    assert(f * cap >= cap + 1) by (nonlinear_arith)
        requires
            f >= 2,
            cap >= 1,
    ;
    assert(accepted(data.len(), b0.headroom(), b0.room(a0)) == data.len());
    assert(b0.contents(a0) + data.subrange(0, data.len() as int) =~= data);
    b1.lemma_wf(a1);
    b1.lemma_block_count(a1);
    let k1 = b1.chain@.len() as int;
    assert(b1.spec_len() == cap + 1);
    assert(k1 == 2) by {
        assert(k1 > 0);
        assert((k1 - 1) * cap < 2 * cap && cap + 1 <= k1 * cap);
        assert(k1 == 2) by (nonlinear_arith)
            requires
                (k1 - 1) * cap < 2 * cap,
                cap + 1 <= k1 * cap,
                cap >= 1,
        ;
    }
    assert(r == cap);
    b2.lemma_wf(a2);
    b2.lemma_block_count(a2);
    let k2 = b2.chain@.len() as int;
    assert(b2.contents(a2) =~= data.subrange(cap, cap + 1));
    assert(k2 == 1) by {
        assert(b2.spec_len() == 1);
        assert(k2 > 0);
        assert((k2 - 1) * cap < cap);
        assert(k2 == 1) by (nonlinear_arith)
            requires
                (k2 - 1) * cap < cap,
                k2 > 0,
                cap >= 1,
        ;
    }
}

} // verus!
