use static_linker::arch::{
    address_unit, ADDI_R_AC, CLEAR_R_AC, ENTRY, ENTRYPOINT_LEN, HLT, INSTRUCTION_BYTES, JMP_R_AC,
    JUMP_BIAS, SHIFT_R_AC, UNIT_MAX,
};
use static_linker::codegen::{gen_entrypoint, load_addr_code, LOAD_ADDR_LEN};

#[test]
fn constants_of_the_target() {
    assert_eq!(INSTRUCTION_BYTES, 2);
    assert_eq!(ENTRYPOINT_LEN, 10);
    assert_eq!(JUMP_BIAS, 1);
    assert_eq!(UNIT_MAX, 65535);
    assert_eq!(CLEAR_R_AC, 0x6DB0);
    assert_eq!(SHIFT_R_AC, 0x3D00);
    assert_eq!(JMP_R_AC, 0xBC00);
    assert_eq!(ADDI_R_AC, 0x1C);
    assert_eq!(HLT, 0xFF);
    assert_eq!(ENTRY, "main");
    assert_eq!(LOAD_ADDR_LEN, 8);
}

#[test]
fn load_addr_code_splits_the_unit_into_two_bytes() {
    assert_eq!(
        load_addr_code(0x1234),
        vec![0x6D, 0xB0, 0x1C, 0x12, 0x3D, 0x00, 0x1C, 0x34]
    );
}

#[test]
fn load_addr_code_of_the_smallest_and_the_largest_unit() {
    assert_eq!(
        load_addr_code(0),
        vec![0x6D, 0xB0, 0x1C, 0x00, 0x3D, 0x00, 0x1C, 0x00]
    );
    assert_eq!(
        load_addr_code(0xFFFF),
        vec![0x6D, 0xB0, 0x1C, 0xFF, 0x3D, 0x00, 0x1C, 0xFF]
    );
}

#[test]
fn load_addr_code_keeps_a_low_byte_with_the_top_bit_set() {
    assert_eq!(
        load_addr_code(0x00FF),
        vec![0x6D, 0xB0, 0x1C, 0x00, 0x3D, 0x00, 0x1C, 0xFF]
    );
    assert_eq!(
        load_addr_code(0x0100),
        vec![0x6D, 0xB0, 0x1C, 0x01, 0x3D, 0x00, 0x1C, 0x00]
    );
}

#[test]
fn gen_entrypoint_ends_in_a_jump() {
    assert_eq!(
        gen_entrypoint(4),
        vec![0x6D, 0xB0, 0x1C, 0x00, 0x3D, 0x00, 0x1C, 0x04, 0xBC, 0x00]
    );
}

#[test]
fn gen_entrypoint_is_as_long_as_the_trampoline() {
    assert_eq!(gen_entrypoint(0).len(), ENTRYPOINT_LEN);
    assert_eq!(gen_entrypoint(0xFFFF).len(), ENTRYPOINT_LEN);
    assert_eq!(
        gen_entrypoint(0xABCD),
        vec![0x6D, 0xB0, 0x1C, 0xAB, 0x3D, 0x00, 0x1C, 0xCD, 0xBC, 0x00]
    );
}

#[test]
fn the_unit_can_be_read_back_from_the_code() {
    for unit in [0usize, 1, 4, 255, 256, 0x1234, 0x8000, 0xFFFE, 0xFFFF] {
        let code = load_addr_code(unit);
        assert_eq!(code[3] as usize * 256 + code[7] as usize, unit);
        let trampoline = gen_entrypoint(unit);
        assert_eq!(trampoline[3] as usize, unit >> 8);
        assert_eq!(trampoline[7] as usize, unit & 0xFF);
    }
}

#[test]
fn address_unit_counts_instructions_past_the_trampoline() {
    assert_eq!(address_unit(0), Some(4));
    assert_eq!(address_unit(1), Some(4));
    assert_eq!(address_unit(2), Some(5));
    assert_eq!(address_unit(3), Some(5));
    assert_eq!(address_unit(12), Some(10));
    assert_eq!(address_unit(1000), Some(504));
}

#[test]
fn address_unit_stops_at_sixteen_bits() {
    assert_eq!(address_unit(131062), Some(65535));
    assert_eq!(address_unit(131063), Some(65535));
    assert_eq!(address_unit(131064), None);
    assert_eq!(address_unit(1 << 64), None);
    assert_eq!(address_unit(u128::MAX), None);
    assert_eq!(address_unit(u128::MAX - 9), None);
}
