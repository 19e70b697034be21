use rum::decode::{
    encode_load_val, encode_three, lv_reg_a, lv_value, opcode, reg_a, reg_b, reg_c, OP_ADD,
    OP_HALT, OP_LOAD_VAL, OP_OUTPUT,
};

#[test]
fn three_register_round_trip() {
    let word = encode_three(OP_ADD, 1, 2, 4);
    assert_eq!(word, 0x3000_0054);
    assert_eq!(opcode(word), OP_ADD);
    assert_eq!(reg_a(word), 1);
    assert_eq!(reg_b(word), 2);
    assert_eq!(reg_c(word), 4);
}

#[test]
fn three_register_round_trip_all_fields() {
    for op in 0..14u32 {
        for a in 0..8u32 {
            for b in 0..8u32 {
                for c in 0..8u32 {
                    let word = encode_three(op, a, b, c);
                    assert_eq!(opcode(word), op);
                    assert_eq!(reg_a(word), a as usize);
                    assert_eq!(reg_b(word), b as usize);
                    assert_eq!(reg_c(word), c as usize);
                }
            }
        }
    }
}

#[test]
fn load_val_round_trip() {
    let word = encode_load_val(0, 72);
    assert_eq!(word, 0xD000_0048);
    assert_eq!(opcode(word), OP_LOAD_VAL);
    assert_eq!(lv_reg_a(word), 0);
    assert_eq!(lv_value(word), 72);

    let word = encode_load_val(7, 0x01FF_FFFF);
    assert_eq!(opcode(word), OP_LOAD_VAL);
    assert_eq!(lv_reg_a(word), 7);
    assert_eq!(lv_value(word), 0x01FF_FFFF);
}

#[test]
fn decode_does_not_echo_its_argument() {
    // A halt word and an output word decode to small fields, not to the
    // word itself.
    let halt = encode_three(OP_HALT, 0, 0, 0);
    assert_eq!(halt, 0x7000_0000);
    assert_eq!(opcode(halt), OP_HALT);
    let out = encode_three(OP_OUTPUT, 0, 0, 3);
    assert_eq!(opcode(out), OP_OUTPUT);
    assert_eq!(reg_c(out), 3);
}
