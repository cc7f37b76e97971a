use static_linker::error::LinkError;
use static_linker::reloc::{parse_relocations, Relocation, RELOCATION_BYTES};

#[test]
fn an_empty_section_has_no_records() {
    assert_eq!(parse_relocations(&[]), Ok(vec![]));
}

#[test]
fn a_record_is_eight_bytes() {
    assert_eq!(RELOCATION_BYTES, 8);
}

#[test]
fn the_offset_is_little_endian() {
    let bytes = [0x78, 0x56, 0x34, 0x12, 0xAA, 0x07, 0xBB, 0xCC];
    assert_eq!(
        parse_relocations(&bytes),
        Ok(vec![Relocation {
            offset: 0x12345678,
            symbol: 7
        }])
    );
}

#[test]
fn the_kind_and_the_padding_are_not_read() {
    let a = [4, 0, 0, 0, 0, 1, 0, 0];
    let b = [4, 0, 0, 0, 0xFF, 1, 0xFF, 0xFF];
    assert_eq!(parse_relocations(&a), parse_relocations(&b));
    assert_eq!(
        parse_relocations(&a),
        Ok(vec![Relocation {
            offset: 4,
            symbol: 1
        }])
    );
}

#[test]
fn records_come_in_the_order_of_the_section() {
    let bytes = [
        0x00, 0x01, 0x00, 0x00, 0, 2, 0, 0, //
        0xFF, 0xFF, 0xFF, 0xFF, 0, 255, 0, 0, //
        0x10, 0x00, 0x00, 0x00, 0, 0, 0, 0,
    ];
    assert_eq!(
        parse_relocations(&bytes),
        Ok(vec![
            Relocation {
                offset: 256,
                symbol: 2
            },
            Relocation {
                offset: u32::MAX,
                symbol: 255
            },
            Relocation {
                offset: 16,
                symbol: 0
            },
        ])
    );
}

#[test]
fn a_section_that_ends_inside_a_record_is_refused() {
    for len in [1usize, 3, 4, 5, 7, 9, 12, 15] {
        let bytes = vec![0u8; len];
        assert_eq!(
            parse_relocations(&bytes),
            Err(LinkError::TruncatedRelocations)
        );
    }
}
