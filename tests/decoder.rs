use csimlib::decoder::{make_mask, AddressLayout, DecodedAddress};

#[test]
fn masks() {
    assert_eq!(make_mask(0, 5), 0);
    assert_eq!(make_mask(2, 0), 0b11);
    assert_eq!(make_mask(8, 2), 0b11_1111_1100);
    assert_eq!(make_mask(32, 0), u32::MAX);
    assert_eq!(make_mask(40, 4), 0xffff_fff0);
    assert_eq!(make_mask(3, 32), 0);
    assert_eq!(make_mask(4, 30), 0xc000_0000);
}

#[test]
fn layout_of_geometry() {
    let l = AddressLayout::new(256, 4);
    assert_eq!(l.nbits_offset, 2);
    assert_eq!(l.nbits_index, 8);
    assert_eq!(l.nbits_tag, 22);
    assert_eq!(l.offset_mask, 0x3);
    assert_eq!(l.index_mask, 0x3fc);
    assert_eq!(l.tag_mask, 0xffff_fc00);
}

#[test]
fn decode_splits_fields() {
    let l = AddressLayout::new(256, 4);
    let d = l.decode(0xdead_beef);
    assert_eq!(d, DecodedAddress { tag: 0xdead_beef >> 10, index: (0xbeef >> 2) & 0xff, offset: 3 });
}

#[test]
fn decode_round_trip() {
    let l = AddressLayout::new(64, 32);
    for (tag, index, offset) in [(0usize, 0usize, 0usize), (1, 63, 31), (0x1f_ffff, 17, 5), (12345, 0, 31)] {
        let address = ((tag << 11) | (index << 5) | offset) as u32;
        assert_eq!(l.decode(address), DecodedAddress { tag, index, offset });
    }
}

#[test]
fn decode_without_tag_bits() {
    let l = AddressLayout::new(1 << 16, 1 << 16);
    assert_eq!(l.nbits_tag, 0);
    assert_eq!(l.tag_mask, 0);
    assert_eq!(l.decode(0xffff_ffff), DecodedAddress { tag: 0, index: 0xffff, offset: 0xffff });
}

#[test]
fn decode_single_set() {
    let l = AddressLayout::new(1, 8);
    assert_eq!(l.nbits_index, 0);
    assert_eq!(l.index_mask, 0);
    assert_eq!(l.decode(0x1234_5679), DecodedAddress { tag: 0x1234_5679 >> 3, index: 0, offset: 1 });
}
