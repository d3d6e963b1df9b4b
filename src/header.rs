//! The 16-bit block header a byte buffer keeps in the first two bytes of each
//! of its blocks: the next block's slot in the low `slot_bits`, this block's
//! payload length in the next `len_bits`, the next block's generation in the
//! top `gen_bits`.
use crate::allocator::{pow2_u32, BitLayout, Handle, HEADER_BITS};
use vstd::arithmetic::div_mod::{
    lemma_div_denominator, lemma_fundamental_div_mod_converse, lemma_mod_bound,
};
use vstd::arithmetic::mul::{lemma_mul_is_associative, lemma_mul_upper_bound, lemma_mul_nonnegative};
use vstd::arithmetic::power2::{lemma_pow2_adds, lemma_pow2_pos, pow2};
use vstd::bits::{lemma_u32_low_bits_mask_is_mod, lemma_u32_shr_is_div, low_bits_mask};
use vstd::prelude::*;

verus! {

/// Generation written in the header of a block that has no successor.
pub const NONE_GEN: u8 = 0;

/// Whether the three fields of `l` partition the 16-bit header.
pub open spec fn layout_ok(l: BitLayout) -> bool {
    l.slot_bits + l.gen_bits + l.len_bits == HEADER_BITS
}

/// The header word kept in the first two bytes of `block`, little endian.
pub open spec fn header_word(block: Seq<u8>) -> nat {
    (block[0] + 256 * block[1]) as nat
}

/// The slot field of `meta`.
pub open spec fn field_slot(meta: nat, l: BitLayout) -> nat {
    meta % pow2(l.slot_bits as nat)
}

/// The payload-length field of `meta`.
pub open spec fn field_len(meta: nat, l: BitLayout) -> nat {
    (meta / pow2(l.slot_bits as nat)) % pow2(l.len_bits as nat)
}

/// The generation field of `meta`.
pub open spec fn field_gen(meta: nat, l: BitLayout) -> nat {
    (meta / pow2((l.slot_bits + l.len_bits) as nat)) % pow2(l.gen_bits as nat)
}

/// The header word with the given fields.
pub open spec fn pack(slot: nat, len: nat, generation: nat, l: BitLayout) -> nat {
    slot + len * pow2(l.slot_bits as nat) + generation * pow2((l.slot_bits + l.len_bits) as nat)
}

/// The slot value meaning "no next block": all ones.
pub open spec fn none_slot(l: BitLayout) -> nat {
    (pow2(l.slot_bits as nat) - 1) as nat
}

/// Whether all three fields fit their widths.
pub open spec fn fields_fit(slot: nat, len: nat, generation: nat, l: BitLayout) -> bool {
    &&& slot < pow2(l.slot_bits as nat)
    &&& len < pow2(l.len_bits as nat)
    &&& generation < pow2(l.gen_bits as nat)
}

/// The block that the header `meta` links to, if any.
pub open spec fn next_of(meta: nat, l: BitLayout) -> Option<Handle> {
    if field_slot(meta, l) == none_slot(l) {
        None
    } else {
        Some(Handle { slot: field_slot(meta, l) as u16, generation: field_gen(meta, l) as u8 })
    }
}

/// Packing fields that fit and reading them back gives the same fields, and
/// the packed word fits in 16 bits.
pub proof fn lemma_pack_fields(slot: nat, len: nat, generation: nat, l: BitLayout)
    requires
        layout_ok(l),
        fields_fit(slot, len, generation, l),
    ensures
        field_slot(pack(slot, len, generation, l), l) == slot,
        field_len(pack(slot, len, generation, l), l) == len,
        field_gen(pack(slot, len, generation, l), l) == generation,
        pack(slot, len, generation, l) < 0x10000,
{
    let a = pow2(l.slot_bits as nat) as int;
    let b = pow2(l.len_bits as nat) as int;
    let c = pow2(l.gen_bits as nat) as int;
    lemma_pow2_pos(l.slot_bits as nat);
    lemma_pow2_pos(l.len_bits as nat);
    lemma_pow2_pos(l.gen_bits as nat);
    lemma_pow2_adds(l.slot_bits as nat, l.len_bits as nat);
    lemma_pow2_adds((l.slot_bits + l.len_bits) as nat, l.gen_bits as nat);
    vstd::arithmetic::power2::lemma2_to64();
    let m = pack(slot, len, generation, l) as int;
    let q = len + b * generation;
    lemma_mul_is_associative(generation as int, a, b);
    assert(generation * (a * b) == a * (b * generation)) by (nonlinear_arith);
    assert(len * a == a * len) by (nonlinear_arith);
    assert(m == a * q + slot) by (nonlinear_arith)
        requires
            m == slot + len * a + generation * (a * b),
            generation * (a * b) == a * (b * generation),
            len * a == a * len,
            q == len + b * generation,
    ;
    lemma_fundamental_div_mod_converse(m, a, q, slot as int);
    assert(q == generation * b + len) by (nonlinear_arith)
        requires
            q == len + b * generation,
    ;
    lemma_fundamental_div_mod_converse(q, b, generation as int, len as int);
    lemma_div_denominator(m, a, b);
    lemma_fundamental_div_mod_converse(generation as int, c, 0, generation as int);
    assert(q <= b * c - 1) by (nonlinear_arith)
        requires
            q == len + b * generation,
            len <= b - 1,
            generation <= c - 1,
            b > 0,
    ;
    assert(m <= a * (b * c) - 1) by (nonlinear_arith)
        requires
            m == a * q + slot,
            slot <= a - 1,
            q <= b * c - 1,
            a > 0,
    ;
    lemma_mul_is_associative(a, b, c);
    assert(pow2(HEADER_BITS as nat) == 0x10000);
}

/// A field of at most 16 bits holds values below `2^16`.
pub proof fn lemma_pow2_le16(w: nat)
    requires
        w <= 16,
    ensures
        pow2(w) <= 0x10000,
{
    vstd::arithmetic::power2::lemma2_to64();
    if w < 16 {
        vstd::arithmetic::power2::lemma_pow2_strictly_increases(w, 16);
    }
}

/// Every header word is the packing of its own fields.
pub proof fn lemma_unpack_pack(meta: nat, l: BitLayout)
    requires
        layout_ok(l),
        meta < 0x10000,
    ensures
        pack(field_slot(meta, l), field_len(meta, l), field_gen(meta, l), l) == meta,
        fields_fit(field_slot(meta, l), field_len(meta, l), field_gen(meta, l), l),
        pow2(l.slot_bits as nat) <= 0x10000,
        pow2(l.len_bits as nat) <= 0x10000,
        pow2(l.gen_bits as nat) <= 0x10000,
{
    lemma_pow2_le16(l.slot_bits as nat);
    lemma_pow2_le16(l.len_bits as nat);
    lemma_pow2_le16(l.gen_bits as nat);
    let a = pow2(l.slot_bits as nat) as int;
    let b = pow2(l.len_bits as nat) as int;
    let c = pow2(l.gen_bits as nat) as int;
    lemma_pow2_pos(l.slot_bits as nat);
    lemma_pow2_pos(l.len_bits as nat);
    lemma_pow2_pos(l.gen_bits as nat);
    lemma_pow2_adds(l.slot_bits as nat, l.len_bits as nat);
    lemma_pow2_adds((l.slot_bits + l.len_bits) as nat, l.gen_bits as nat);
    vstd::arithmetic::power2::lemma2_to64();
    lemma_mul_is_associative(a, b, c);
    let m = meta as int;
    let q = m / a;
    let s = m % a;
    vstd::arithmetic::div_mod::lemma_fundamental_div_mod(m, a);
    let g0 = q / b;
    let ln = q % b;
    vstd::arithmetic::div_mod::lemma_fundamental_div_mod(q, b);
    lemma_div_denominator(m, a, b);
    lemma_mod_bound(m, a);
    lemma_mod_bound(q, b);
    vstd::arithmetic::div_mod::lemma_div_pos_is_pos(m, a);
    vstd::arithmetic::div_mod::lemma_div_pos_is_pos(q, b);
    assert(g0 < c) by {
        vstd::arithmetic::div_mod::lemma_multiply_divide_lt(m, a * b, c);
    }
    vstd::arithmetic::div_mod::lemma_small_mod(g0 as nat, c as nat);
    assert(m == s + ln * a + g0 * (a * b)) by (nonlinear_arith)
        requires
            m == a * q + s,
            q == b * g0 + ln,
    ;
}

/// The header word kept in the first two bytes of `block`.
pub fn read_header(block: &[u8]) -> (r: u16)
    requires
        block@.len() >= 2,
    ensures
        r == header_word(block@),
{
    block[0] as u16 + (block[1] as u16) * 256
}

/// `x & (2^w - 1)` as `x % 2^w`, and `x >> s` as `x / 2^s`.
fn field(x: u32, shift: u8, width: u8) -> (r: u32)
    requires
        shift < 32,
        width < 32,
    ensures
        r == (x as nat / pow2(shift as nat)) % pow2(width as nat),
{
    proof {
        lemma_pow2_pos(width as nat);
    }
    let mask = pow2_u32(width) - 1;
    proof {
        lemma_u32_shr_is_div(x, shift as u32);
        assert(mask == low_bits_mask(width as nat) as u32);
        lemma_u32_low_bits_mask_is_mod(x >> shift as u32, width as nat);
        vstd::bits::lemma_u32_pow2_no_overflow(width as nat);
    }
    (x >> shift as u32) & mask
}

/// The payload length recorded in the header of `block`.
pub fn get_len(block: &[u8], layout: &BitLayout) -> (r: u16)
    requires
        block@.len() >= 2,
        layout_ok(*layout),
    ensures
        r == field_len(header_word(block@), *layout),
{
    let meta = read_header(block) as u32;
    proof {
        lemma_unpack_pack(meta as nat, *layout);
    }
    field(meta, layout.slot_bits, layout.len_bits) as u16
}

/// The next block's slot recorded in the header of `block`.
pub fn get_next_slot(block: &[u8], layout: &BitLayout) -> (r: u16)
    requires
        block@.len() >= 2,
        layout_ok(*layout),
    ensures
        r == field_slot(header_word(block@), *layout),
{
    let meta = read_header(block) as u32;
    proof {
        lemma_unpack_pack(meta as nat, *layout);
        vstd::arithmetic::power2::lemma2_to64();
    }
    field(meta, 0, layout.slot_bits) as u16
}

/// The next block's generation recorded in the header of `block`.
pub fn get_next_gen(block: &[u8], layout: &BitLayout) -> (r: u8)
    requires
        block@.len() >= 2,
        layout_ok(*layout),
        layout.gen_bits <= 8,
    ensures
        r == field_gen(header_word(block@), *layout),
{
    let meta = read_header(block) as u32;
    proof {
        lemma_unpack_pack(meta as nat, *layout);
        vstd::arithmetic::power2::lemma2_to64();
        if layout.gen_bits < 8 {
            vstd::arithmetic::power2::lemma_pow2_strictly_increases(layout.gen_bits as nat, 8);
        }
    }
    field(meta, layout.slot_bits + layout.len_bits, layout.gen_bits) as u8
}

/// The block that the header of `block` links to, if any.
pub fn get_next_handle(block: &[u8], layout: &BitLayout) -> (r: Option<Handle>)
    requires
        block@.len() >= 2,
        layout_ok(*layout),
        layout.gen_bits <= 8,
    ensures
        r == next_of(header_word(block@), *layout),
{
    let slot = get_next_slot(block, layout);
    let generation = get_next_gen(block, layout);
    proof {
        lemma_pow2_pos(layout.slot_bits as nat);
    }
    let none = pow2_u32(layout.slot_bits) - 1;
    if slot as u32 == none {
        None
    } else {
        Some(Handle::new(slot, generation))
    }
}

/// The header word with the given fields.
pub fn pack_header(slot: u16, len: u16, generation: u8, layout: &BitLayout) -> (r: u16)
    requires
        layout_ok(*layout),
        fields_fit(slot as nat, len as nat, generation as nat, *layout),
    ensures
        r == pack(slot as nat, len as nat, generation as nat, *layout),
{
    proof {
        lemma_pack_fields(slot as nat, len as nat, generation as nat, *layout);
        vstd::arithmetic::power2::lemma2_to64();
        lemma_pow2_pos(layout.slot_bits as nat);
        lemma_pow2_pos((layout.slot_bits + layout.len_bits) as nat);
        lemma_mul_nonnegative(len as int, pow2(layout.slot_bits as nat) as int);
        lemma_mul_nonnegative(
            generation as int,
            pow2((layout.slot_bits + layout.len_bits) as nat) as int,
        );
    }
    let a = pow2_u32(layout.slot_bits);
    let ab = pow2_u32(layout.slot_bits + layout.len_bits);
    proof {
        lemma_mul_upper_bound(len as int, 0xffff, a as int, 0x10000);
        lemma_mul_upper_bound(generation as int, 0xff, ab as int, 0x10000);
    }
    (slot as u32 + len as u32 * a + generation as u32 * ab) as u16
}

/// `meta` with its payload-length field set to `len`.
pub fn set_len(meta: u16, len: u16, layout: &BitLayout) -> (r: u16)
    requires
        layout_ok(*layout),
        len < pow2(layout.len_bits as nat),
        layout.gen_bits <= 8,
    ensures
        r == pack(field_slot(meta as nat, *layout), len as nat, field_gen(meta as nat, *layout), *layout),
{
    proof {
        lemma_unpack_pack(meta as nat, *layout);
        vstd::arithmetic::power2::lemma2_to64();
        if layout.gen_bits < 8 {
            vstd::arithmetic::power2::lemma_pow2_strictly_increases(layout.gen_bits as nat, 8);
        }
    }
    let m = meta as u32;
    let slot = field(m, 0, layout.slot_bits) as u16;
    let generation = field(m, layout.slot_bits + layout.len_bits, layout.gen_bits) as u8;
    pack_header(slot, len, generation, layout)
}

/// `meta` linked to the block in slot `slot`.
pub fn set_next_slot(meta: u16, slot: u16, layout: &BitLayout) -> (r: u16)
    requires
        layout_ok(*layout),
        slot < pow2(layout.slot_bits as nat),
        layout.gen_bits <= 8,
    ensures
        r == pack(slot as nat, field_len(meta as nat, *layout), field_gen(meta as nat, *layout), *layout),
{
    proof {
        lemma_unpack_pack(meta as nat, *layout);
        vstd::arithmetic::power2::lemma2_to64();
        if layout.gen_bits < 8 {
            vstd::arithmetic::power2::lemma_pow2_strictly_increases(layout.gen_bits as nat, 8);
        }
    }
    let m = meta as u32;
    let len = field(m, layout.slot_bits, layout.len_bits) as u16;
    let generation = field(m, layout.slot_bits + layout.len_bits, layout.gen_bits) as u8;
    pack_header(slot, len, generation, layout)
}

/// `meta` with its next-generation field set to `generation`.
pub fn set_next_gen(meta: u16, generation: u8, layout: &BitLayout) -> (r: u16)
    requires
        layout_ok(*layout),
        generation < pow2(layout.gen_bits as nat),
    ensures
        r == pack(field_slot(meta as nat, *layout), field_len(meta as nat, *layout), generation as nat, *layout),
{
    proof {
        lemma_unpack_pack(meta as nat, *layout);
        vstd::arithmetic::power2::lemma2_to64();
    }
    let m = meta as u32;
    let slot = field(m, 0, layout.slot_bits) as u16;
    let len = field(m, layout.slot_bits, layout.len_bits) as u16;
    pack_header(slot, len, generation, layout)
}

/// Payload bytes a block holds after its two-byte header.
pub fn data_capacity(block: &[u8]) -> (r: usize)
    ensures
        r == if block@.len() >= 2 {
            block@.len() - 2
        } else {
            0
        },
{
    if block.len() >= 2 {
        block.len() - 2
    } else {
        0
    }
}

/// The payload of `block`: the bytes after the header, as many as its
/// length field says.
pub fn get_data<'a>(block: &'a [u8], layout: &BitLayout) -> (r: &'a [u8])
    requires
        block@.len() >= 2,
        layout_ok(*layout),
        2 + field_len(header_word(block@), *layout) <= block@.len(),
    ensures
        r@ == block@.subrange(2, 2 + field_len(header_word(block@), *layout) as int),
{
    let len = get_len(block, layout) as usize;
    vstd::slice::slice_subrange(block, 2, 2 + len)
}

} // verus!
