//! Instruction decoding and encoding.
//!
//! An instruction is a packed 32-bit word.  The opcode sits in the top four
//! bits.  Every operation except Load Value uses the three-register form:
//! register A in bits 6..=8, register B in bits 3..=5, register C in
//! bits 0..=2.  Load Value instead carries register A in bits 25..=27 and a
//! 25-bit immediate in bits 0..=24.
use vstd::prelude::*;

verus! {

/// Number of defined opcodes; opcode values at or above this fault.
pub const NUM_OPCODES: u32 = 14;

pub const OP_COND_MOVE: u32 = 0;

pub const OP_SEG_LOAD: u32 = 1;

pub const OP_SEG_STORE: u32 = 2;

pub const OP_ADD: u32 = 3;

pub const OP_MUL: u32 = 4;

pub const OP_DIV: u32 = 5;

pub const OP_NAND: u32 = 6;

pub const OP_HALT: u32 = 7;

pub const OP_MAP_SEG: u32 = 8;

pub const OP_UNMAP_SEG: u32 = 9;

pub const OP_OUTPUT: u32 = 10;

pub const OP_INPUT: u32 = 11;

pub const OP_LOAD_PROG: u32 = 12;

pub const OP_LOAD_VAL: u32 = 13;

/// The opcode field: the top four bits of the word.
pub open spec fn s_opcode(word: u32) -> u32 {
    word >> 28
}

/// Register A of the three-register form: bits 6..=8.
pub open spec fn s_ra(word: u32) -> u32 {
    (word >> 6) & 0x7
}

/// Register B of the three-register form: bits 3..=5.
pub open spec fn s_rb(word: u32) -> u32 {
    (word >> 3) & 0x7
}

/// Register C of the three-register form: bits 0..=2.
pub open spec fn s_rc(word: u32) -> u32 {
    word & 0x7
}

/// Register A of the Load Value form: bits 25..=27.
pub open spec fn s_lv_ra(word: u32) -> u32 {
    (word >> 25) & 0x7
}

/// The 25-bit immediate of the Load Value form: bits 0..=24.
pub open spec fn s_lv_value(word: u32) -> u32 {
    word & 0x01FF_FFFF
}

/// A word of the three-register form, assembled from its fields.
/// Bits 9..=27 of such a word are zero.
pub open spec fn s_encode_three(op: u32, a: u32, b: u32, c: u32) -> u32
    recommends
        op < 16,
        a < 8,
        b < 8,
        c < 8,
{
    (op << 28) | (a << 6) | (b << 3) | c
}

/// A Load Value word, assembled from its register and immediate fields.
pub open spec fn s_encode_load_val(a: u32, value: u32) -> u32
    recommends
        a < 8,
        value < 0x0200_0000,
{
    (OP_LOAD_VAL << 28) | (a << 25) | value
}

/// Extracts the opcode field.  The decoder itself cannot fault: callers
/// decide what an opcode at or above `NUM_OPCODES` means.
pub fn opcode(word: u32) -> (r: u32)
    ensures
        r == s_opcode(word),
        r < 16,
{
    proof {
        assert(word >> 28 < 16) by (bit_vector);
    }
    word >> 28
}

/// Extracts register A of the three-register form.
pub fn reg_a(word: u32) -> (r: usize)
    ensures
        r == s_ra(word),
        r < 8,
{
    proof {
        assert((word >> 6) & 0x7 < 8) by (bit_vector);
    }
    ((word >> 6) & 0x7) as usize
}

/// Extracts register B of the three-register form.
pub fn reg_b(word: u32) -> (r: usize)
    ensures
        r == s_rb(word),
        r < 8,
{
    proof {
        assert((word >> 3) & 0x7 < 8) by (bit_vector);
    }
    ((word >> 3) & 0x7) as usize
}

/// Extracts register C of the three-register form.
pub fn reg_c(word: u32) -> (r: usize)
    ensures
        r == s_rc(word),
        r < 8,
{
    proof {
        assert(word & 0x7 < 8) by (bit_vector);
    }
    (word & 0x7) as usize
}

/// Extracts register A of the Load Value form.
pub fn lv_reg_a(word: u32) -> (r: usize)
    ensures
        r == s_lv_ra(word),
        r < 8,
{
    proof {
        assert((word >> 25) & 0x7 < 8) by (bit_vector);
    }
    ((word >> 25) & 0x7) as usize
}

/// Extracts the 25-bit immediate of the Load Value form.
pub fn lv_value(word: u32) -> (r: u32)
    ensures
        r == s_lv_value(word),
        r < 0x0200_0000,
{
    proof {
        assert(word & 0x01FF_FFFF < 0x0200_0000) by (bit_vector);
    }
    word & 0x01FF_FFFF
}

/// Assembles a three-register instruction word.
pub fn encode_three(op: u32, a: u32, b: u32, c: u32) -> (r: u32)
    requires
        op < 16,
        a < 8,
        b < 8,
        c < 8,
    ensures
        r == s_encode_three(op, a, b, c),
{
    (op << 28) | (a << 6) | (b << 3) | c
}

/// Assembles a Load Value instruction word.
pub fn encode_load_val(a: u32, value: u32) -> (r: u32)
    requires
        a < 8,
        value < 0x0200_0000,
    ensures
        r == s_encode_load_val(a, value),
{
    (OP_LOAD_VAL << 28) | (a << 25) | value
}

/// Law: encoding three-register fields and decoding them again yields the
/// original opcode and register indices, for every in-range choice of fields.
pub proof fn lemma_three_round_trip(op: u32, a: u32, b: u32, c: u32)
    by (bit_vector)
    requires
        op < 16,
        a < 8,
        b < 8,
        c < 8,
    ensures
        s_opcode(s_encode_three(op, a, b, c)) == op,
        s_ra(s_encode_three(op, a, b, c)) == a,
        s_rb(s_encode_three(op, a, b, c)) == b,
        s_rc(s_encode_three(op, a, b, c)) == c,
{
}

/// Law: decoding a three-register word and re-encoding its fields yields the
/// original word, whenever the word's unused bits (9..=27) are zero.  A word
/// with a nonzero unused bit cannot round-trip: the fields do not carry
/// those bits.
pub proof fn lemma_three_word_round_trip(word: u32)
    by (bit_vector)
    requires
        word & 0x0FFF_FE00 == 0,
    ensures
        s_encode_three(s_opcode(word), s_ra(word), s_rb(word), s_rc(word)) == word,
{
}

/// Law: encoding a Load Value register and immediate and decoding them again
/// yields the original fields, for every in-range choice.
pub proof fn lemma_load_val_round_trip(a: u32, value: u32)
    by (bit_vector)
    requires
        a < 8,
        value < 0x0200_0000,
    ensures
        s_opcode(s_encode_load_val(a, value)) == OP_LOAD_VAL,
        s_lv_ra(s_encode_load_val(a, value)) == a,
        s_lv_value(s_encode_load_val(a, value)) == value,
{
}

/// Law: decoding a Load Value word and re-encoding its fields yields the
/// original word exactly — the opcode, register and immediate fields cover
/// all 32 bits, so nothing is lost.
pub proof fn lemma_load_val_word_round_trip(word: u32)
    by (bit_vector)
    requires
        s_opcode(word) == OP_LOAD_VAL,
    ensures
        s_encode_load_val(s_lv_ra(word), s_lv_value(word)) == word,
{
}

} // verus!
