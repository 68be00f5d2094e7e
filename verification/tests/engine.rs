use procsim::processor::{ExecError, Opcode, Processor, State};

/// Encode an instruction word from its five fields: opcode in bits [0,7),
/// rd in [8,11), rs1 in [12,16), rs2 in [17,21), imm in [22,32), counting
/// from the most-significant bit.
fn word(opcode: u32, rd: u32, rs1: u32, rs2: u32, imm: u32) -> u32 {
    (opcode << 25) | (rd << 21) | (rs1 << 16) | (rs2 << 11) | imm
}

#[test]
fn fresh_processor_is_zeroed() {
    let p = Processor::new();
    for i in 0..32 {
        assert_eq!(p.register(i), 0);
    }
    assert_eq!(p.program_counter(), 0);
    assert_eq!(p.memory_len(), 512);
    assert_eq!(p.current_state(), State::Running);
    assert_eq!(p.current_opcode(), Opcode::Idle);
}

#[test]
fn extract_bits_full_range_is_identity() {
    let mut p = Processor::new();
    assert_eq!(p.extract_bits(0xFFFF_FFFF, 0, 32), 0xFFFF_FFFF);
    assert_eq!(p.extract_bits(0x1234_5678, 0, 32), 0x1234_5678);
}

#[test]
fn extract_bits_empty_range_is_zero() {
    let mut p = Processor::new();
    assert_eq!(p.extract_bits(0xFFFF_FFFF, 7, 7), 0);
    assert_eq!(p.extract_bits(0xFFFF_FFFF, 0, 0), 0);
    assert_eq!(p.extract_bits(0xFFFF_FFFF, 32, 32), 0);
}

#[test]
fn extract_bits_reads_fields_msb_first() {
    let w = word(0b110011, 5, 9, 12, 1000);
    let mut p = Processor::new();
    assert_eq!(p.extract_bits(w, 0, 7), 0b110011);
    assert_eq!(p.extract_bits(w, 8, 11), 5);
    assert_eq!(p.extract_bits(w, 12, 16), 9);
    assert_eq!(p.extract_bits(w, 17, 21), 12);
    assert_eq!(p.extract_bits(w, 22, 32), 1000);
}

#[test]
fn extract_bits_value_is_below_field_capacity() {
    let mut p = Processor::new();
    // A 3-bit field can never reach 8.
    assert!(p.extract_bits(0xFFFF_FFFF, 8, 11) < 8);
    // A 10-bit field can never reach 1024.
    assert!(p.extract_bits(0xFFFF_FFFF, 22, 32) < 1024);
}

#[test]
fn decode_known_opcodes() {
    let mut p = Processor::new();
    assert_eq!(p.decode_opcode(0b110011), Ok(Opcode::Add));
    assert_eq!(p.decode_opcode(0b110000), Ok(Opcode::Sub));
    assert_eq!(p.decode_opcode(0b000011), Ok(Opcode::Load));
    assert_eq!(p.decode_opcode(0b100011), Ok(Opcode::Store));
    assert_eq!(p.decode_opcode(0b000000), Ok(Opcode::Break));
}

#[test]
fn decode_rejects_unknown_opcodes() {
    let mut p = Processor::new();
    assert_eq!(p.decode_opcode(1), Err(ExecError::UnknownOpcode(1)));
    assert_eq!(p.decode_opcode(0b111111), Err(ExecError::UnknownOpcode(0b111111)));
    assert_eq!(p.decode_opcode(127), Err(ExecError::UnknownOpcode(127)));
    assert_eq!(p.decode_opcode(0b110001), Err(ExecError::UnknownOpcode(0b110001)));
}

#[test]
fn add_uses_rs1_field_value_not_register_contents() {
    // The historical semantics: ADD adds the raw rs1 field value, even when
    // register rs1 holds something else entirely.
    let mut p = Processor::new();
    p.add(5, 42);
    assert_eq!(p.register(5), 42);
    let program = [word(0b110011, 1, 5, 0, 0)];
    assert_eq!(p.load_program(&program), Ok(()));
    assert_eq!(p.execute_instruction(), Ok(()));
    // Register 1 gained the field value 5, not the 42 held in register 5.
    assert_eq!(p.register(1), 5);
}

#[test]
fn add_scenario_single_step() {
    // One ADD with rd=1, rs1=5 in the 512-byte configuration.
    let mut p = Processor::new();
    let program = [word(0b110011, 1, 5, 0, 0)];
    assert_eq!(p.load_program(&program), Ok(()));
    assert_eq!(p.execute_instruction(), Ok(()));
    assert_eq!(p.register(1), 5);
    assert_eq!(p.program_counter(), 4);
    assert_eq!(p.current_state(), State::Running);
    assert_eq!(p.current_opcode(), Opcode::Add);
}

#[test]
fn add_scenario_halts_when_memory_is_one_instruction() {
    // The same ADD, but memory is exactly one instruction wide: the program
    // counter reaches the end of memory and the engine halts.
    let mut p = Processor::with_memory_size(4);
    let program = [word(0b110011, 1, 5, 0, 0)];
    assert_eq!(p.load_program(&program), Ok(()));
    assert_eq!(p.execute_instruction(), Ok(()));
    assert_eq!(p.register(1), 5);
    assert_eq!(p.program_counter(), 4);
    assert_eq!(p.current_state(), State::Halted);
}

#[test]
fn break_scenario_halts_without_advancing() {
    let mut p = Processor::new();
    let program = [word(0, 0, 0, 0, 0)];
    assert_eq!(p.load_program(&program), Ok(()));
    assert_eq!(p.execute_instruction(), Ok(()));
    assert_eq!(p.current_state(), State::Halted);
    assert_eq!(p.program_counter(), 0);
    assert_eq!(p.current_opcode(), Opcode::Break);
}

#[test]
fn store_scenario_out_of_bounds_fails() {
    // Memory capacity 8; the STORE's effective address is 8, past the end.
    let mut p = Processor::with_memory_size(8);
    let program = [word(0b100011, 0, 0, 0, 8)];
    assert_eq!(p.load_program(&program), Ok(()));
    assert_eq!(p.execute(), Err(ExecError::OutOfBoundsAccess(8)));
    assert_eq!(p.current_state(), State::Running);
    assert_eq!(p.program_counter(), 0);
}

#[test]
fn run_until_break_leaves_pc_at_program_end() {
    // Two arithmetic words; the zeroed memory after them decodes as BREAK,
    // so the run stops exactly at offset 4 * 2.
    let mut p = Processor::new();
    let program = [word(0b110011, 1, 5, 0, 0), word(0b110000, 1, 2, 0, 0)];
    assert_eq!(p.load_program(&program), Ok(()));
    assert_eq!(p.execute(), Ok(()));
    assert_eq!(p.program_counter(), 8);
    assert_eq!(p.register(1), 3);
    assert_eq!(p.current_state(), State::Halted);
    assert_eq!(p.current_opcode(), Opcode::Break);
}

#[test]
fn run_stops_at_earlier_break() {
    // A BREAK in the middle: the second ADD is never executed.
    let mut p = Processor::new();
    let program = [
        word(0b110011, 1, 5, 0, 0),
        word(0, 0, 0, 0, 0),
        word(0b110011, 1, 7, 0, 0),
    ];
    assert_eq!(p.load_program(&program), Ok(()));
    assert_eq!(p.execute(), Ok(()));
    assert_eq!(p.program_counter(), 4);
    assert_eq!(p.register(1), 5);
    assert_eq!(p.current_state(), State::Halted);
}

#[test]
fn add_wraps_on_overflow() {
    let mut p = Processor::new();
    p.add(1, 0xFFFF_FFFF);
    p.add(1, 2);
    assert_eq!(p.register(1), 1);
}

#[test]
fn sub_wraps_on_underflow() {
    let mut p = Processor::new();
    p.sub(1, 5);
    assert_eq!(p.register(1), 0xFFFF_FFFB);
}

#[test]
fn add_and_sub_touch_only_rd() {
    let mut p = Processor::new();
    p.add(3, 7);
    p.sub(4, 2);
    for i in 0..32 {
        let expected = if i == 3 {
            7
        } else if i == 4 {
            0xFFFF_FFFE
        } else {
            0
        };
        assert_eq!(p.register(i as usize), expected);
    }
}

#[test]
fn store_then_load_round_trips() {
    let mut p = Processor::new();
    p.add(2, 0xDEAD_BEEF_u32 as usize);
    assert_eq!(p.store(0, 2, 100), Ok(()));
    assert_eq!(p.load(3, 0, 100), Ok(()));
    assert_eq!(p.register(3), 0xDEAD_BEEF);
    // Registers other than rd are untouched by the LOAD.
    assert_eq!(p.register(2), 0xDEAD_BEEF);
    assert_eq!(p.register(0), 0);
}

#[test]
fn load_with_negative_address_fails() {
    let mut p = Processor::new();
    p.add(4, 0x8000_0000_u32 as usize);
    assert_eq!(
        p.load(1, 4, 0),
        Err(ExecError::OutOfBoundsAccess(-2147483648))
    );
    assert_eq!(p.register(1), 0);
}

#[test]
fn load_past_end_of_memory_fails() {
    let mut p = Processor::new();
    assert_eq!(p.load(1, 0, 510), Err(ExecError::OutOfBoundsAccess(510)));
    assert_eq!(p.load(1, 0, 508), Ok(()));
}

#[test]
fn load_program_writes_words_little_endian() {
    let mut p = Processor::new();
    let program = [0x0403_0201];
    assert_eq!(p.load_program(&program), Ok(()));
    // Reading the word back through a LOAD sees the same value.
    assert_eq!(p.load(1, 0, 0), Ok(()));
    assert_eq!(p.register(1), 0x0403_0201);
    // The byte at offset 0 is the least-significant one.
    assert_eq!(p.load(2, 0, 1), Ok(()));
    assert_eq!(p.register(2), 0x0004_0302);
}

#[test]
fn load_program_rejects_oversized_program() {
    let mut p = Processor::with_memory_size(8);
    let program = [1, 2, 3];
    assert_eq!(p.load_program(&program), Err(ExecError::OutOfBoundsLoad(3)));
    assert_eq!(p.program_counter(), 0);
    assert_eq!(p.current_state(), State::Running);
}

#[test]
fn load_program_fills_memory_exactly() {
    let mut p = Processor::with_memory_size(8);
    let program = [word(0b110011, 1, 3, 0, 0), word(0b110011, 1, 4, 0, 0)];
    assert_eq!(p.load_program(&program), Ok(()));
    assert_eq!(p.execute(), Ok(()));
    assert_eq!(p.register(1), 7);
    assert_eq!(p.program_counter(), 8);
    assert_eq!(p.current_state(), State::Halted);
}

#[test]
fn unknown_opcode_during_execution_fails() {
    let mut p = Processor::new();
    let program = [word(1, 0, 0, 0, 0)];
    assert_eq!(p.load_program(&program), Ok(()));
    assert_eq!(p.execute(), Err(ExecError::UnknownOpcode(1)));
    assert_eq!(p.program_counter(), 0);
    assert_eq!(p.current_state(), State::Running);
}

#[test]
fn store_writes_register_contents() {
    // STORE, unlike ADD, reads the contents of register rs2.
    let mut p = Processor::new();
    p.add(2, 0x1234_5678);
    let program = [word(0b100011, 0, 3, 2, 64)];
    assert_eq!(p.load_program(&program), Ok(()));
    assert_eq!(p.execute_instruction(), Ok(()));
    assert_eq!(p.current_opcode(), Opcode::Store);
    assert_eq!(p.load(5, 3, 64), Ok(()));
    assert_eq!(p.register(5), 0x1234_5678);
}

#[test]
fn load_through_executed_instruction() {
    // A LOAD instruction with rs1=0 and imm=8 reads the word the program
    // placed at offset 8 into register 6.
    let mut p = Processor::new();
    let program = [word(0b000011, 6, 0, 0, 8), word(0, 0, 0, 0, 0), 0xCAFE_F00D];
    assert_eq!(p.load_program(&program), Ok(()));
    assert_eq!(p.execute(), Ok(()));
    assert_eq!(p.register(6), 0xCAFE_F00D);
    assert_eq!(p.program_counter(), 4);
}
