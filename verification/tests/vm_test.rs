use mini_evm::{ContractAccount, Evm, EvmError, ExitReason, Word};

fn run_code(code: Vec<u8>) -> Evm {
    let account: ContractAccount = ContractAccount::new(code);
    let mut evm: Evm = Evm::new(account, Word::zero(), vec![]);
    evm.run().unwrap();
    evm
}

fn max_word() -> Word {
    Word { l0: u64::MAX, l1: u64::MAX, l2: u64::MAX, l3: u64::MAX }
}

fn push32_max() -> Vec<u8> {
    let mut v: Vec<u8> = vec![0x7f];
    v.extend_from_slice(&[0xff; 32]);
    v
}

#[test]
fn add_then_sub_round_trips_with_wraparound() {
    // a + 5 - 5 == a, even when a + 5 wraps past 2^256.
    let mut code: Vec<u8> = push32_max();
    code.extend_from_slice(&[0x60, 0x05, 0x01, 0x60, 0x05, 0x90, 0x03, 0x00]);
    let evm: Evm = run_code(code);
    assert_eq!(evm.stack.len(), 1);
    assert_eq!(evm.stack[0], max_word());
}

#[test]
fn add_wraps_to_zero() {
    let mut code: Vec<u8> = push32_max();
    code.extend_from_slice(&[0x60, 0x01, 0x01, 0x00]);
    let evm: Evm = run_code(code);
    assert_eq!(evm.stack[0], Word::zero());
}

#[test]
fn div_mod_sdiv_by_zero_give_zero() {
    // DIV: 7 / 0 == 0
    let evm: Evm = run_code(vec![0x60, 0x00, 0x60, 0x07, 0x04, 0x00]);
    assert_eq!(evm.stack[0], Word::zero());
    // MOD: 7 % 0 == 0
    let evm: Evm = run_code(vec![0x60, 0x00, 0x60, 0x07, 0x06, 0x00]);
    assert_eq!(evm.stack[0], Word::zero());
    // SDIV: 7 / 0 == 0 (the divisor is the second-popped word)
    let evm: Evm = run_code(vec![0x60, 0x00, 0x60, 0x07, 0x05, 0x00]);
    assert_eq!(evm.stack[0], Word::zero());
}

#[test]
fn addmod_mulmod_zero_modulus_give_zero() {
    // ADDMOD with modulus 0
    let evm: Evm = run_code(vec![0x60, 0x00, 0x60, 0x05, 0x60, 0x06, 0x08, 0x00]);
    assert_eq!(evm.stack[0], Word::zero());
    // MULMOD with modulus 0
    let evm: Evm = run_code(vec![0x60, 0x00, 0x60, 0x05, 0x60, 0x06, 0x09, 0x00]);
    assert_eq!(evm.stack[0], Word::zero());
}

#[test]
fn addmod_reduces_the_exact_sum() {
    // (2^256 - 1) + (2^256 - 1) modulo 3: the exact sum is divisible by
    // 3, while the sum's low 256 bits leave 2.
    let mut code: Vec<u8> = vec![0x60, 0x03];
    code.extend_from_slice(&push32_max());
    code.extend_from_slice(&push32_max());
    code.extend_from_slice(&[0x08, 0x00]);
    let evm: Evm = run_code(code);
    assert_eq!(evm.stack[0], Word::zero());
}

#[test]
fn mulmod_uses_full_width_product() {
    // 2^128 * 2^128 = 2^256, which truncates to zero in 256 bits;
    // modulo 2^16 - 1 the exact product leaves 1.
    let p128: Vec<u8> = {
        let mut v: Vec<u8> = vec![0x70, 0x01];
        v.extend_from_slice(&[0x00; 16]);
        v
    };
    let mut code: Vec<u8> = vec![0x61, 0xff, 0xff]; // modulus 65535
    code.extend_from_slice(&p128);
    code.extend_from_slice(&p128);
    code.extend_from_slice(&[0x09, 0x00]);
    let evm: Evm = run_code(code);
    assert_eq!(evm.stack[0], Word::from_u64(1));
}

#[test]
fn byte_index_past_31_gives_zero() {
    // index 64
    let evm: Evm = run_code(vec![0x60, 0xab, 0x60, 0x40, 0x1a, 0x00]);
    assert_eq!(evm.stack[0], Word::zero());
    // an index filling all 256 bits
    let mut code: Vec<u8> = vec![0x60, 0xab];
    code.extend_from_slice(&push32_max());
    code.extend_from_slice(&[0x1a, 0x00]);
    let evm: Evm = run_code(code);
    assert_eq!(evm.stack[0], Word::zero());
}

#[test]
fn jump_to_non_jumpdest_reverts() {
    // target in bounds, but the byte there is ADD
    let account: ContractAccount = ContractAccount::new(vec![0x60, 0x03, 0x56, 0x01]);
    let mut evm: Evm = Evm::new(account, Word::zero(), vec![]);
    match evm.run().unwrap() {
        ExitReason::Revert(data) => assert_eq!(data, vec![0x56]),
        other => panic!("expected a revert, got {:?}", other),
    }
}

#[test]
fn jump_out_of_bounds_reverts() {
    let account: ContractAccount = ContractAccount::new(vec![0x60, 0x63, 0x56, 0x00]);
    let mut evm: Evm = Evm::new(account, Word::zero(), vec![]);
    match evm.run().unwrap() {
        ExitReason::Revert(data) => assert_eq!(data, vec![0x56]),
        other => panic!("expected a revert, got {:?}", other),
    }
}

#[test]
fn jumpi_to_bad_target_reverts_only_when_taken() {
    // condition zero: the bad target is ignored
    let evm: Evm = run_code(vec![0x60, 0x00, 0x60, 0x63, 0x57, 0x60, 0x2a, 0x00]);
    assert_eq!(evm.stack[0], Word::from_u64(0x2a));
    // condition nonzero: revert with the JUMPI marker
    let account: ContractAccount =
        ContractAccount::new(vec![0x60, 0x01, 0x60, 0x63, 0x57, 0x00]);
    let mut evm: Evm = Evm::new(account, Word::zero(), vec![]);
    match evm.run().unwrap() {
        ExitReason::Revert(data) => assert_eq!(data, vec![0x57]),
        other => panic!("expected a revert, got {:?}", other),
    }
}

#[test]
fn jump_to_jumpdest_continues() {
    // PUSH1 4, JUMP, INVALID, JUMPDEST, PUSH1 7, STOP
    let evm: Evm = run_code(vec![0x60, 0x04, 0x56, 0xfe, 0x5b, 0x60, 0x07, 0x00]);
    assert_eq!(evm.stack.len(), 1);
    assert_eq!(evm.stack[0], Word::from_u64(7));
}

#[test]
fn storing_zero_removes_the_key() {
    // store 10 at key 1, overwrite with 0, then load key 1
    let code: Vec<u8> = vec![
        0x60, 0x0a, 0x60, 0x01, 0x55, // SSTORE 1 <- 10
        0x60, 0x00, 0x60, 0x01, 0x55, // SSTORE 1 <- 0
        0x60, 0x01, 0x54, // SLOAD 1
        0x00,
    ];
    let evm: Evm = run_code(code);
    assert_eq!(evm.stack.len(), 1);
    assert_eq!(evm.stack[0], Word::zero());
}

#[test]
fn storage_round_trips_nonzero_values() {
    // store 10 at key 1, then load it back
    let code: Vec<u8> = vec![0x60, 0x0a, 0x60, 0x01, 0x55, 0x60, 0x01, 0x54, 0x00];
    let evm: Evm = run_code(code);
    assert_eq!(evm.stack.len(), 1);
    assert_eq!(evm.stack[0], Word::from_u64(10));
}

#[test]
fn memory_reads_past_writes_give_zero() {
    // write one byte 0xff at offset 0, then load the 32-byte slot at 0
    let evm: Evm = run_code(vec![0x60, 0xff, 0x60, 0x00, 0x53, 0x60, 0x00, 0x51, 0x00]);
    assert_eq!(evm.stack.len(), 1);
    assert_eq!(
        evm.stack[0],
        Word { l0: 0, l1: 0, l2: 0, l3: 0xff00_0000_0000_0000 },
    );
    // memory grew for the load and kept the zero fill
    assert!(evm.memory.len() >= 32);
    for i in 1..32 {
        assert_eq!(evm.memory[i], 0);
    }
}

#[test]
fn mstore_mload_round_trip() {
    let evm: Evm =
        run_code(vec![0x61, 0x12, 0x34, 0x60, 0x00, 0x52, 0x60, 0x00, 0x51, 0x00]);
    assert_eq!(evm.stack[0], Word::from_u64(0x1234));
    assert_eq!(evm.memory.len(), 32);
}

#[test]
fn scenario_push_add_stop() {
    let evm: Evm = run_code(vec![0x60, 0x02, 0x60, 0x03, 0x01, 0x00]);
    assert_eq!(evm.stack.len(), 1);
    assert_eq!(evm.stack[0], Word::from_u64(5));
}

#[test]
fn scenario_push_div_stop() {
    let evm: Evm = run_code(vec![0x60, 0x02, 0x60, 0x06, 0x04, 0x00]);
    assert_eq!(evm.stack.len(), 1);
    assert_eq!(evm.stack[0], Word::from_u64(3));
}

#[test]
fn scenario_store_ten_at_one() {
    let evm: Evm = run_code(vec![0x60, 0x0a, 0x60, 0x01, 0x55, 0x00]);
    assert_eq!(evm.stack.len(), 0);
    let account: ContractAccount = evm.take_account();
    assert_eq!(account.storage.get(&Word::from_u64(1)), Word::from_u64(10));
}

#[test]
fn return_revert_with_overflowing_range_fail() {
    // offset and size that each fit the address width, whose sum does not
    let push8_max: Vec<u8> = {
        let mut v: Vec<u8> = vec![0x67];
        v.extend_from_slice(&[0xff; 8]);
        v
    };
    // RETURN with offset + size past the address width
    let mut code: Vec<u8> = push8_max.clone();
    code.extend_from_slice(&push8_max);
    code.push(0xf3);
    let account: ContractAccount = ContractAccount::new(code);
    let mut evm: Evm = Evm::new(account, Word::zero(), vec![]);
    assert_eq!(evm.run().unwrap_err(), EvmError::MemoryOverflow);

    // REVERT with the same range
    let mut code: Vec<u8> = push8_max.clone();
    code.extend_from_slice(&push8_max);
    code.push(0xfd);
    let account: ContractAccount = ContractAccount::new(code);
    let mut evm: Evm = Evm::new(account, Word::zero(), vec![]);
    assert_eq!(evm.run().unwrap_err(), EvmError::MemoryOverflow);

    // RETURN with an offset that does not fit the address width at all
    let mut code: Vec<u8> = vec![0x60, 0x01];
    code.extend_from_slice(&push32_max());
    code.push(0xf3);
    let account: ContractAccount = ContractAccount::new(code);
    let mut evm: Evm = Evm::new(account, Word::zero(), vec![]);
    assert_eq!(evm.run().unwrap_err(), EvmError::OffsetOverflow);
}

#[test]
fn unknown_opcode_fails() {
    let account: ContractAccount = ContractAccount::new(vec![0x0b]);
    let mut evm: Evm = Evm::new(account, Word::zero(), vec![]);
    assert_eq!(evm.run().unwrap_err(), EvmError::UnknownOpcode(0x0b));
}

#[test]
fn truncated_push_fails() {
    let account: ContractAccount = ContractAccount::new(vec![0x61, 0x01]);
    let mut evm: Evm = Evm::new(account, Word::zero(), vec![]);
    assert_eq!(evm.run().unwrap_err(), EvmError::TruncatedPush);
}

#[test]
fn stack_underflow_is_a_structured_error() {
    let account: ContractAccount = ContractAccount::new(vec![0x01]);
    let mut evm: Evm = Evm::new(account, Word::zero(), vec![]);
    assert_eq!(evm.run().unwrap_err(), EvmError::StackUnderflow);
}

#[test]
fn running_off_the_code_end_stops() {
    let account: ContractAccount = ContractAccount::new(vec![0x60, 0x05]);
    let mut evm: Evm = Evm::new(account, Word::zero(), vec![]);
    match evm.run().unwrap() {
        ExitReason::Stop => {},
        other => panic!("expected a stop, got {:?}", other),
    }
    assert_eq!(evm.stack[0], Word::from_u64(5));
}

#[test]
fn invalid_opcode_reverts_with_marker() {
    let account: ContractAccount = ContractAccount::new(vec![0xfe]);
    let mut evm: Evm = Evm::new(account, Word::zero(), vec![]);
    match evm.run().unwrap() {
        ExitReason::Revert(data) => assert_eq!(data, vec![0xfe]),
        other => panic!("expected a revert, got {:?}", other),
    }
}

#[test]
fn sdiv_divides_signed_values() {
    // -8 / 2 == -4: the dividend is the first-popped word, so push the
    // divisor 2 first, then build -8 as 0 - 8 on top of it
    let code: Vec<u8> = vec![0x60, 0x02, 0x60, 0x08, 0x60, 0x00, 0x03, 0x05, 0x00];
    let evm: Evm = run_code(code);
    assert_eq!(
        evm.stack[0],
        Word { l0: 0xffff_ffff_ffff_fffc, l1: u64::MAX, l2: u64::MAX, l3: u64::MAX },
    );
}

#[test]
fn sdiv_keeps_large_magnitudes() {
    // (-2^200) / 2^100 == -2^100, beyond any narrow signed type.
    // The divisor 2^100 goes on the stack first; the dividend -2^200 is
    // built on top of it as 0 - 2^200, since SUB takes the top of the
    // stack as the minuend.
    let code: Vec<u8> = vec![
        0x60, 0x01, 0x60, 0x64, 0x1b, // 2^100
        0x60, 0x01, 0x60, 0xc8, 0x1b, // 2^200
        0x60, 0x00, 0x03, // 0 - 2^200
        0x05, 0x00,
    ];
    let evm: Evm = run_code(code);
    assert_eq!(
        evm.stack[0],
        Word { l0: 0, l1: 0xffff_fff0_0000_0000, l2: u64::MAX, l3: u64::MAX },
    );
}

#[test]
fn slt_sgt_compare_signed() {
    // -1 < 1: push 1, then -1 (top), SLT: first popped is -1
    let code: Vec<u8> = vec![
        0x60, 0x01, // 1
        0x60, 0x01, 0x60, 0x00, 0x03, // -1
        0x12, 0x00,
    ];
    let evm: Evm = run_code(code);
    assert_eq!(evm.stack[0], Word::from_u64(1));
}

#[test]
fn bitwise_ops() {
    // AND
    let evm: Evm = run_code(vec![0x60, 0x0c, 0x60, 0x0a, 0x16, 0x00]);
    assert_eq!(evm.stack[0], Word::from_u64(0x08));
    // OR
    let evm: Evm = run_code(vec![0x60, 0x0c, 0x60, 0x0a, 0x17, 0x00]);
    assert_eq!(evm.stack[0], Word::from_u64(0x0e));
    // XOR
    let evm: Evm = run_code(vec![0x60, 0x0c, 0x60, 0x0a, 0x18, 0x00]);
    assert_eq!(evm.stack[0], Word::from_u64(0x06));
    // NOT 0 is the all-ones word
    let evm: Evm = run_code(vec![0x60, 0x00, 0x19, 0x00]);
    assert_eq!(evm.stack[0], max_word());
    // ISZERO
    let evm: Evm = run_code(vec![0x60, 0x00, 0x15, 0x00]);
    assert_eq!(evm.stack[0], Word::from_u64(1));
}

#[test]
fn shift_right() {
    let evm: Evm = run_code(vec![0x60, 0x08, 0x60, 0x01, 0x1c, 0x00]);
    assert_eq!(evm.stack[0], Word::from_u64(4));
    // shifts of 256 or more clear the word
    let mut code: Vec<u8> = push32_max();
    code.extend_from_slice(&[0x61, 0x01, 0x00, 0x1c, 0x00]);
    let evm: Evm = run_code(code);
    assert_eq!(evm.stack[0], Word::zero());
}

#[test]
fn exponent_wraps_past_the_modulus() {
    // 2^256 wraps to 0
    let evm: Evm = run_code(vec![0x61, 0x01, 0x00, 0x60, 0x02, 0x0a, 0x00]);
    assert_eq!(evm.stack[0], Word::zero());
}

#[test]
fn dup_and_swap() {
    let evm: Evm = run_code(vec![0x60, 0x05, 0x80, 0x00]);
    assert_eq!(evm.stack.len(), 2);
    assert_eq!(evm.stack[0], Word::from_u64(5));
    assert_eq!(evm.stack[1], Word::from_u64(5));

    let evm: Evm = run_code(vec![0x60, 0x01, 0x60, 0x02, 0x90, 0x00]);
    assert_eq!(evm.stack[0], Word::from_u64(2));
    assert_eq!(evm.stack[1], Word::from_u64(1));
}

#[test]
fn environment_reads() {
    // CHAINID
    let evm: Evm = run_code(vec![0x46, 0x00]);
    assert_eq!(evm.stack[0], Word::from_u64(0xbee_eeef));
    // BASEFEE
    let evm: Evm = run_code(vec![0x48, 0x00]);
    assert_eq!(evm.stack[0], Word::from_u64(1));
    // CALLER
    let evm: Evm = run_code(vec![0x33, 0x00]);
    assert_eq!(
        evm.stack[0],
        Word { l0: 0xdead_beef_dead_beef, l1: 0xdead_beef_dead_beef, l2: 0, l3: 0 },
    );
    // ADDRESS
    let evm: Evm = run_code(vec![0x30, 0x00]);
    assert_eq!(
        evm.stack[0],
        Word { l0: 0xaddd_ecaf_addd_ecaf, l1: 0xaddd_ecaf_addd_ecaf, l2: 0, l3: 0 },
    );
    // the block number is a day of the month
    let evm: Evm = run_code(vec![0x43, 0x00]);
    let day: Word = evm.stack[0];
    assert!(1 <= day.l0 && day.l0 <= 31);
    assert_eq!((day.l1, day.l2, day.l3), (0, 0, 0));
    // PC: after a leading JUMPDEST, the address of PC itself is 1
    let evm: Evm = run_code(vec![0x5b, 0x58, 0x00]);
    assert_eq!(evm.stack[0], Word::from_u64(1));
}

#[test]
fn callvalue_and_calldata() {
    let account: ContractAccount = ContractAccount::new(vec![0x34, 0x36, 0x60, 0x00, 0x35, 0x00]);
    let mut evm: Evm = Evm::new(account, Word::from_u64(77), vec![0x01, 0x02]);
    evm.run().unwrap();
    assert_eq!(evm.stack[0], Word::from_u64(77));
    assert_eq!(evm.stack[1], Word::from_u64(2));
    // CALLDATALOAD reads [0x01, 0x02] into the two most significant bytes
    assert_eq!(
        evm.stack[2],
        Word { l0: 0, l1: 0, l2: 0, l3: 0x0102_0000_0000_0000 },
    );
}

#[test]
fn codecopy_zero_fills_past_the_code() {
    // copy 5 bytes from offset 99, far past the code's end
    let evm: Evm = run_code(vec![0x60, 0x05, 0x60, 0x63, 0x60, 0x00, 0x39, 0x00]);
    assert_eq!(evm.memory.len(), 5);
    assert_eq!(evm.memory, vec![0, 0, 0, 0, 0]);
}

#[test]
fn keccak_of_empty_input() {
    let evm: Evm = run_code(vec![0x60, 0x00, 0x60, 0x00, 0x20, 0x00]);
    assert_eq!(
        evm.stack[0],
        Word {
            l0: 0x7bfa_d804_5d85_a470,
            l1: 0xe500_b653_ca82_273b,
            l2: 0x927e_7db2_dcc7_03c0,
            l3: 0xc5d2_4601_86f7_233c,
        },
    );
}
