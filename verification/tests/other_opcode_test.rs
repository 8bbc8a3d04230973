use mini_evm::{ContractAccount, Evm, Word};

fn setup(code: Vec<u8>) -> ContractAccount {
    ContractAccount::new(code)
}

#[test]
fn other_opcode_test_test_byte() {
    let code: Vec<u8> = vec![
        0x63, 0x02, 0x01, 0x10, 0x05, // PUSH4 0x00...02011005
        0x60, 0x1e, // PUSH1 30
        0x1a, // BYTE
        0x64, 0x02, 0x01, 0x10, 0x05, 0x06, // PUSH5 0x00...0201100506
        0x60, 0x1b, // PUSH1 27
        0x1a, // BYTE
        0x00, // STOP
    ];

    let account: ContractAccount = setup(code);
    let mut evm: Evm = Evm::new(account, Word::zero(), vec![]);
    evm.run().unwrap();

    assert_eq!(evm.stack.len(), 2);
    assert_eq!(evm.stack[0], Word::from_u64(0x10));
    assert_eq!(evm.stack[1], Word::from_u64(0x02));
}

#[test]
fn other_opcode_test_storage() {
    let code: Vec<u8> = vec![0x60, 0x0A, 0x60, 0x01, 0x55, 0x00];
    let account: ContractAccount = setup(code);
    let mut evm: Evm = Evm::new(account, Word::zero(), vec![]);

    evm.run().unwrap();
    assert_eq!(evm.stack.len(), 0);
    let account: ContractAccount = evm.take_account();
    assert_eq!(account.storage.get(&Word::from_u64(1)), Word::from_u64(10));
}
