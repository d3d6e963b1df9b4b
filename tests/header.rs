use tinyalloc::allocator::{bits_needed, layout_for_config};
use tinyalloc::header::{
    data_capacity, get_data, get_len, get_next_gen, get_next_handle, get_next_slot, pack_header,
    read_header, set_len, set_next_gen, set_next_slot,
};
use tinyalloc::{BitLayout, Handle};

fn layout() -> BitLayout {
    BitLayout { slot_bits: 7, gen_bits: 4, len_bits: 5 }
}

#[test]
fn pack_places_fields_low_to_high() {
    let l = layout();
    assert_eq!(pack_header(3, 5, 2, &l), 3 + 5 * 128 + 2 * 4096);
    assert_eq!(pack_header(127, 0, 0, &l), 127);
    assert_eq!(pack_header(0, 31, 15, &l), 31 * 128 + 15 * 4096);
}

#[test]
fn header_fields_read_back() {
    let l = layout();
    let meta = pack_header(9, 17, 6, &l);
    let block = [(meta % 256) as u8, (meta / 256) as u8, 0xAA, 0xBB];
    assert_eq!(read_header(&block), meta);
    assert_eq!(get_next_slot(&block, &l), 9);
    assert_eq!(get_len(&block, &l), 17);
    assert_eq!(get_next_gen(&block, &l), 6);
    assert_eq!(get_next_handle(&block, &l), Some(Handle::new(9, 6)));
}

#[test]
fn setters_change_one_field() {
    let l = layout();
    let meta = pack_header(9, 17, 6, &l);
    assert_eq!(set_len(meta, 3, &l), pack_header(9, 3, 6, &l));
    assert_eq!(set_next_slot(meta, 40, &l), pack_header(40, 17, 6, &l));
    assert_eq!(set_next_gen(meta, 1, &l), pack_header(9, 17, 1, &l));
}

#[test]
fn all_ones_slot_means_no_next_block() {
    let l = layout();
    let meta = pack_header(127, 4, 0, &l);
    let block = [(meta % 256) as u8, (meta / 256) as u8, 1, 2, 3, 4, 5];
    assert_eq!(get_next_handle(&block, &l), None);
    assert_eq!(get_data(&block, &l), &[1, 2, 3, 4]);
    assert_eq!(data_capacity(&block), 5);
    assert_eq!(data_capacity(&block[..1]), 0);
}

#[test]
fn layout_from_configuration() {
    assert_eq!(bits_needed(0), 0);
    assert_eq!(bits_needed(1), 1);
    assert_eq!(bits_needed(64), 7);
    assert_eq!(bits_needed(255), 8);
    let l = layout_for_config(64, 32);
    assert_eq!((l.slot_bits, l.gen_bits, l.len_bits), (7, 4, 5));
    let l = layout_for_config(4, 128);
    assert_eq!((l.slot_bits, l.gen_bits, l.len_bits), (3, 6, 7));
    let l = layout_for_config(2, 10);
    assert_eq!((l.slot_bits, l.gen_bits, l.len_bits), (2, 8, 6));
}
