use rum::decode::{
    encode_load_val, encode_three, OP_ADD, OP_COND_MOVE, OP_DIV, OP_HALT, OP_INPUT, OP_LOAD_PROG,
    OP_MAP_SEG, OP_MUL, OP_NAND, OP_OUTPUT, OP_SEG_LOAD, OP_SEG_STORE, OP_UNMAP_SEG,
};
use rum::machine::{Action, Fault, Vm};

fn fresh_vm(program: Vec<u32>) -> Vm {
    Vm::new(program)
}

#[test]
fn new_machine_is_zeroed() {
    let vm = fresh_vm(vec![0x7000_0000]);
    assert_eq!(vm.registers, vec![0u32; 8]);
    assert_eq!(vm.memory.len(), 1);
    assert_eq!(vm.memory[0], vec![0x7000_0000]);
    assert_eq!(vm.unmapped_segs.len(), 0);
    assert_eq!(vm.max_mapped_seg, 0);
    assert_eq!(vm.prog_count, 0);
}

#[test]
fn add_wraps_at_the_boundary() {
    let mut vm = fresh_vm(vec![0]);
    vm.registers[1] = 0xFFFF_FFFF;
    vm.registers[2] = 0xFFFF_FFFF;
    rum::machine::add(&mut vm, encode_three(OP_ADD, 0, 1, 2));
    assert_eq!(vm.registers[0], 0xFFFF_FFFE);
}

#[test]
fn add_small_values() {
    let mut vm = fresh_vm(vec![0]);
    vm.registers[1] = 7;
    vm.registers[2] = 35;
    rum::machine::add(&mut vm, encode_three(OP_ADD, 3, 1, 2));
    assert_eq!(vm.registers[3], 42);
}

#[test]
fn mul_wraps_at_the_boundary() {
    let mut vm = fresh_vm(vec![0]);
    vm.registers[1] = 0x0001_0000;
    vm.registers[2] = 0x0001_0000;
    rum::machine::mul(&mut vm, encode_three(OP_MUL, 0, 1, 2));
    assert_eq!(vm.registers[0], 0);

    vm.registers[1] = 6;
    vm.registers[2] = 7;
    rum::machine::mul(&mut vm, encode_three(OP_MUL, 0, 1, 2));
    assert_eq!(vm.registers[0], 42);
}

#[test]
fn div_truncates_toward_zero() {
    let mut vm = fresh_vm(vec![0]);
    vm.registers[1] = 7;
    vm.registers[2] = 2;
    let r = rum::machine::div(&mut vm, encode_three(OP_DIV, 0, 1, 2));
    assert_eq!(r, Ok(()));
    assert_eq!(vm.registers[0], 3);
}

#[test]
fn div_by_zero_faults_and_changes_nothing() {
    let mut vm = fresh_vm(vec![0]);
    vm.registers[1] = 7;
    let r = rum::machine::div(&mut vm, encode_three(OP_DIV, 0, 1, 2));
    assert_eq!(r, Err(Fault::DivideByZero));
    assert_eq!(vm.registers, vec![0, 7, 0, 0, 0, 0, 0, 0]);
    assert_eq!(vm.prog_count, 0);
}

#[test]
fn nand_negates_the_conjunction() {
    let mut vm = fresh_vm(vec![0]);
    vm.registers[1] = 0xF0F0_F0F0;
    vm.registers[2] = 0xFF00_FF00;
    rum::machine::nand(&mut vm, encode_three(OP_NAND, 0, 1, 2));
    assert_eq!(vm.registers[0], !(0xF0F0_F0F0u32 & 0xFF00_FF00u32));
}

#[test]
fn cond_move_takes_b_only_when_c_nonzero() {
    let mut vm = fresh_vm(vec![0]);
    vm.registers[1] = 11;
    vm.registers[2] = 0;
    rum::machine::cond_move(&mut vm, encode_three(OP_COND_MOVE, 0, 1, 2));
    assert_eq!(vm.registers[0], 0);
    vm.registers[2] = 1;
    rum::machine::cond_move(&mut vm, encode_three(OP_COND_MOVE, 0, 1, 2));
    assert_eq!(vm.registers[0], 11);
}

#[test]
fn load_val_sets_the_immediate() {
    let mut vm = fresh_vm(vec![0]);
    rum::machine::load_val(&mut vm, encode_load_val(5, 0x0123_456));
    assert_eq!(vm.registers[5], 0x0123_456);
}

#[test]
fn map_assigns_fresh_ids_in_order() {
    let mut vm = fresh_vm(vec![0]);
    vm.registers[2] = 4;
    rum::machine::map_seg(&mut vm, encode_three(OP_MAP_SEG, 0, 1, 2));
    assert_eq!(vm.registers[1], 1);
    rum::machine::map_seg(&mut vm, encode_three(OP_MAP_SEG, 0, 1, 2));
    assert_eq!(vm.registers[1], 2);
    assert_eq!(vm.max_mapped_seg, 2);
    assert_eq!(vm.memory[1], vec![0u32; 4]);
    assert_eq!(vm.memory[2], vec![0u32; 4]);
}

#[test]
fn map_unmap_map_reuses_the_same_id_zero_filled() {
    let mut vm = fresh_vm(vec![0]);
    // Map a three-word segment; its id lands in register 1.
    vm.registers[2] = 3;
    rum::machine::map_seg(&mut vm, encode_three(OP_MAP_SEG, 0, 1, 2));
    let id = vm.registers[1];
    assert_eq!(id, 1);
    // Write nonzero data into it: segment[R[1]][R[3]] = R[4].
    vm.registers[3] = 2;
    vm.registers[4] = 0xDEAD_BEEF;
    let r = rum::machine::seg_store(&mut vm, encode_three(OP_SEG_STORE, 1, 3, 4));
    assert_eq!(r, Ok(()));
    assert_eq!(vm.memory[id as usize][2], 0xDEAD_BEEF);
    // Unmap it, then map again with a different length.
    let r = rum::machine::unmap_seg(&mut vm, encode_three(OP_UNMAP_SEG, 0, 0, 1));
    assert_eq!(r, Ok(()));
    vm.registers[2] = 5;
    rum::machine::map_seg(&mut vm, encode_three(OP_MAP_SEG, 0, 6, 2));
    // Last-freed-first: the same id comes back, and the segment is zeroed.
    assert_eq!(vm.registers[6], id);
    assert_eq!(vm.memory[id as usize], vec![0u32; 5]);
}

#[test]
fn unmap_of_segment_zero_faults() {
    let mut vm = fresh_vm(vec![0]);
    let r = rum::machine::unmap_seg(&mut vm, encode_three(OP_UNMAP_SEG, 0, 0, 1));
    assert_eq!(r, Err(Fault::UnmappedSegment));
}

#[test]
fn unmap_of_an_already_unmapped_id_faults() {
    let mut vm = fresh_vm(vec![0]);
    vm.registers[2] = 2;
    rum::machine::map_seg(&mut vm, encode_three(OP_MAP_SEG, 0, 1, 2));
    let r = rum::machine::unmap_seg(&mut vm, encode_three(OP_UNMAP_SEG, 0, 0, 1));
    assert_eq!(r, Ok(()));
    // The id is now on the free stack: unmapping it again faults.
    let r = rum::machine::unmap_seg(&mut vm, encode_three(OP_UNMAP_SEG, 0, 0, 1));
    assert_eq!(r, Err(Fault::UnmappedSegment));
    // An id never assigned faults too.
    vm.registers[5] = 99;
    let r = rum::machine::unmap_seg(&mut vm, encode_three(OP_UNMAP_SEG, 0, 0, 5));
    assert_eq!(r, Err(Fault::UnmappedSegment));
}

#[test]
fn seg_load_and_store_round_trip() {
    let mut vm = fresh_vm(vec![0]);
    vm.registers[2] = 2;
    rum::machine::map_seg(&mut vm, encode_three(OP_MAP_SEG, 0, 1, 2));
    // segment[R[1]][R[3]] = R[4]
    vm.registers[3] = 1;
    vm.registers[4] = 777;
    let r = rum::machine::seg_store(&mut vm, encode_three(OP_SEG_STORE, 1, 3, 4));
    assert_eq!(r, Ok(()));
    // R[5] = segment[R[1]][R[3]]
    let r = rum::machine::seg_load(&mut vm, encode_three(OP_SEG_LOAD, 5, 1, 3));
    assert_eq!(r, Ok(()));
    assert_eq!(vm.registers[5], 777);
}

#[test]
fn seg_load_faults_on_bad_id_and_bad_offset() {
    let mut vm = fresh_vm(vec![10, 20]);
    vm.registers[1] = 7;
    let r = rum::machine::seg_load(&mut vm, encode_three(OP_SEG_LOAD, 0, 1, 2));
    assert_eq!(r, Err(Fault::UnmappedSegment));
    vm.registers[1] = 0;
    vm.registers[2] = 2;
    let r = rum::machine::seg_load(&mut vm, encode_three(OP_SEG_LOAD, 0, 1, 2));
    assert_eq!(r, Err(Fault::SegmentBounds));
}

#[test]
fn seg_store_faults_on_bad_id_and_bad_offset() {
    let mut vm = fresh_vm(vec![10, 20]);
    vm.registers[0] = 3;
    let r = rum::machine::seg_store(&mut vm, encode_three(OP_SEG_STORE, 0, 1, 2));
    assert_eq!(r, Err(Fault::UnmappedSegment));
    vm.registers[0] = 0;
    vm.registers[1] = 5;
    let r = rum::machine::seg_store(&mut vm, encode_three(OP_SEG_STORE, 0, 1, 2));
    assert_eq!(r, Err(Fault::SegmentBounds));
    assert_eq!(vm.memory[0], vec![10, 20]);
}

#[test]
fn input_at_end_of_stream_sets_all_ones() {
    let mut vm = fresh_vm(vec![0]);
    rum::machine::input(&mut vm, encode_three(OP_INPUT, 0, 0, 3), None);
    assert_eq!(vm.registers[3], 0xFFFF_FFFF);
}

#[test]
fn input_byte_is_zero_extended() {
    let mut vm = fresh_vm(vec![0]);
    rum::machine::input(&mut vm, encode_three(OP_INPUT, 0, 0, 3), Some(65));
    assert_eq!(vm.registers[3], 65);
}

#[test]
fn output_hands_back_the_low_byte() {
    let mut vm = fresh_vm(vec![0]);
    vm.registers[2] = 72;
    assert_eq!(
        rum::machine::output(&vm, encode_three(OP_OUTPUT, 0, 0, 2)),
        72
    );
    vm.registers[2] = 0x1F0;
    assert_eq!(
        rum::machine::output(&vm, encode_three(OP_OUTPUT, 0, 0, 2)),
        0xF0
    );
}

#[test]
fn load_prog_with_zero_b_moves_only_the_counter() {
    let mut vm = fresh_vm(vec![1, 2, 3]);
    vm.registers[3] = 2;
    let before_memory = vm.memory.clone();
    let before_registers = vm.registers.clone();
    let r = rum::machine::load_prog(&mut vm, encode_three(OP_LOAD_PROG, 0, 1, 3));
    assert_eq!(r, Ok(()));
    assert_eq!(vm.prog_count, 2);
    assert_eq!(vm.memory, before_memory);
    assert_eq!(vm.registers, before_registers);
    assert_eq!(vm.unmapped_segs.len(), 0);
}

#[test]
fn load_prog_copies_a_mapped_segment_into_segment_zero() {
    let mut vm = fresh_vm(vec![1, 2, 3]);
    vm.registers[2] = 2;
    rum::machine::map_seg(&mut vm, encode_three(OP_MAP_SEG, 0, 1, 2));
    vm.registers[3] = 0;
    vm.registers[4] = 0x7000_0000;
    let r = rum::machine::seg_store(&mut vm, encode_three(OP_SEG_STORE, 1, 3, 4));
    assert_eq!(r, Ok(()));
    vm.registers[5] = 0;
    let r = rum::machine::load_prog(&mut vm, encode_three(OP_LOAD_PROG, 0, 1, 5));
    assert_eq!(r, Ok(()));
    assert_eq!(vm.memory[0], vec![0x7000_0000, 0]);
    assert_eq!(vm.prog_count, 0);
    // The source segment is untouched.
    assert_eq!(vm.memory[1], vec![0x7000_0000, 0]);
}

#[test]
fn load_prog_faults_on_an_unmapped_source() {
    let mut vm = fresh_vm(vec![1, 2, 3]);
    vm.registers[1] = 9;
    vm.registers[5] = 1;
    let r = rum::machine::load_prog(&mut vm, encode_three(OP_LOAD_PROG, 0, 1, 5));
    assert_eq!(r, Err(Fault::UnmappedSegment));
    assert_eq!(vm.prog_count, 0);
    assert_eq!(vm.memory[0], vec![1, 2, 3]);
}

#[test]
fn hello_program_prints_h_then_halts() {
    let program = vec![
        encode_load_val(0, 72),
        encode_three(OP_OUTPUT, 0, 0, 0),
        encode_three(OP_HALT, 0, 0, 0),
    ];
    let mut vm = fresh_vm(program);
    let mut printed: Vec<u8> = Vec::new();
    loop {
        match rum::machine::step(&mut vm) {
            Ok(Action::Continue) => {}
            Ok(Action::Output(byte)) => printed.push(byte),
            Ok(Action::Halt) => break,
            Ok(Action::Input(_)) => panic!("program takes no input"),
            Err(fault) => panic!("unexpected fault: {:?}", fault),
        }
    }
    assert_eq!(printed, b"H".to_vec());
}

#[test]
fn step_faults_on_an_invalid_opcode() {
    assert!(rum::decode::opcode(0xE000_0000) >= rum::decode::NUM_OPCODES);
    let mut vm = fresh_vm(vec![0xE000_0000]);
    let r = rum::machine::step(&mut vm);
    assert_eq!(r, Err(Fault::InvalidOpcode));
}

#[test]
fn step_faults_when_the_counter_runs_off_segment_zero() {
    let mut vm = fresh_vm(vec![encode_three(OP_COND_MOVE, 0, 1, 2)]);
    let r = rum::machine::step(&mut vm);
    assert_eq!(r, Ok(Action::Continue));
    let r = rum::machine::step(&mut vm);
    assert_eq!(r, Err(Fault::ProgramCounter));
    assert_eq!(vm.prog_count, 1);
}

#[test]
fn step_runs_a_loop_written_with_load_prog() {
    // With R[1] = 0, Load Program is a plain jump to R[2].  The first pass
    // prints '*' and jumps back to the start (R[2] still 0); the second
    // pass prints again, and by then R[5] is 1, so the conditional move
    // redirects R[2] to the halt at address 6.
    let program = vec![
        encode_load_val(3, 42),              // R[3] = '*'
        encode_three(OP_OUTPUT, 0, 0, 3),    // print R[3]
        encode_load_val(4, 6),               // R[4] = halt address
        encode_three(OP_COND_MOVE, 2, 4, 5), // if R[5] != 0: R[2] = R[4]
        encode_load_val(5, 1),               // R[5] = 1
        encode_three(OP_LOAD_PROG, 0, 1, 2), // jump to R[2]
        encode_three(OP_HALT, 0, 0, 0),
    ];
    let mut vm = fresh_vm(program);
    let mut printed: Vec<u8> = Vec::new();
    let mut steps = 0;
    loop {
        steps += 1;
        assert!(steps < 100, "program did not halt");
        match rum::machine::step(&mut vm) {
            Ok(Action::Continue) => {}
            Ok(Action::Output(byte)) => printed.push(byte),
            Ok(Action::Halt) => break,
            Ok(Action::Input(_)) => panic!("program takes no input"),
            Err(fault) => panic!("unexpected fault: {:?}", fault),
        }
    }
    assert_eq!(printed, b"**".to_vec());
}

#[test]
fn step_handles_input_in_two_phases() {
    let program = vec![
        encode_three(OP_INPUT, 0, 0, 2),
        encode_three(OP_HALT, 0, 0, 0),
    ];
    let mut vm = fresh_vm(program);
    let r = rum::machine::step(&mut vm);
    match r {
        Ok(Action::Input(word)) => rum::machine::input(&mut vm, word, Some(7)),
        other => panic!("expected an input action, got {:?}", other),
    }
    assert_eq!(vm.registers[2], 7);
    assert_eq!(rum::machine::step(&mut vm), Ok(Action::Halt));
}

