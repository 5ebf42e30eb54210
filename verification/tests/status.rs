use is25xp::status::Status;

#[test]
fn bits() {
    assert_eq!(Status(0b00000001).wip(), true);
    assert_eq!(Status(0b00000010).wel(), true);
    assert_eq!(Status(0b01000000).qe(), true);
    assert_eq!(Status(0b10000000).srwd(), true);

    assert_eq!(Status(0b11111111).wip(), true);
    assert_eq!(Status(0b11111111).wel(), true);
    assert_eq!(Status(0b11111111).qe(), true);
    assert_eq!(Status(0b11111111).srwd(), true);

    assert_eq!(Status(0b00000000).wip(), false);
    assert_eq!(Status(0b00000000).wel(), false);
    assert_eq!(Status(0b00000000).qe(), false);
    assert_eq!(Status(0b00000000).srwd(), false);
}

#[test]
fn each_bit_decides_one_condition() {
    for raw in 0..=255u8 {
        let status = Status::from(raw);
        assert_eq!(status.wip(), raw & 0x01 != 0);
        assert_eq!(status.wel(), raw & 0x02 != 0);
        assert_eq!(status.qe(), raw & 0x40 != 0);
        assert_eq!(status.srwd(), raw & 0x80 != 0);
    }
}

#[test]
fn other_bits_do_not_matter() {
    assert_eq!(Status(0b0011_1100).wip(), false);
    assert_eq!(Status(0b0011_1100).wel(), false);
    assert_eq!(Status(0b0011_1100).qe(), false);
    assert_eq!(Status(0b0011_1100).srwd(), false);
    assert_eq!(Status(0b1111_1110).wip(), false);
    assert_eq!(Status(0b1111_1101).wel(), false);
    assert_eq!(Status(0b1011_1111).qe(), false);
    assert_eq!(Status(0b0111_1111).srwd(), false);
}

#[test]
fn block_protection_is_never_reported() {
    assert_eq!(Status(0b0000_0000).bp(), false);
    assert_eq!(Status(0b0011_1100).bp(), false);
    assert_eq!(Status(0b1111_1111).bp(), false);
}
