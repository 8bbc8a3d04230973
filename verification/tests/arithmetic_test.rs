use mini_evm::{ContractAccount, Evm, Word};

fn setup(code: Vec<u8>) -> ContractAccount {
    ContractAccount::new(code)
}

#[test]
fn arithmetic_test_adds_two_numbers() {
    let code: Vec<u8> = vec![0x60, 0x02, 0x60, 0x03, 0x01, 0x00];
    let account: ContractAccount = setup(code);
    let mut evm: Evm = Evm::new(account, Word::zero(), vec![]);

    evm.run().unwrap();
    assert_eq!(evm.stack[0], Word::from_u64(5));
}

#[test]
fn arithmetic_test_subtracts_two_numbers() {
    let code: Vec<u8> = vec![0x60, 0x02, 0x60, 0x03, 0x03, 0x00];
    let account: ContractAccount = setup(code);
    let mut evm: Evm = Evm::new(account, Word::zero(), vec![]);

    evm.run().unwrap();
    assert_eq!(evm.stack.len(), 1);
    assert_eq!(evm.stack[0], Word::from_u64(1));
}

#[test]
fn arithmetic_test_multiplies_two_numbers() {
    let code: Vec<u8> = vec![0x60, 0x03, 0x60, 0x02, 0x02, 0x00];
    let account: ContractAccount = setup(code);
    let mut evm: Evm = Evm::new(account, Word::zero(), vec![]);

    evm.run().unwrap();
    assert_eq!(evm.stack.len(), 1);
    assert_eq!(evm.stack[0], Word::from_u64(6));
}

#[test]
fn arithmetic_test_divides_two_numbers() {
    let code: Vec<u8> = vec![0x60, 0x02, 0x60, 0x06, 0x04, 0x00];
    let account: ContractAccount = setup(code);
    let mut evm: Evm = Evm::new(account, Word::zero(), vec![]);

    evm.run().unwrap();
    assert_eq!(evm.stack.len(), 1);
    assert_eq!(evm.stack[0], Word::from_u64(3));
}

#[test]
fn arithmetic_test_exponentiation() {
    let code: Vec<u8> = vec![0x60, 0x02, 0x60, 0x02, 0x0A, 0x00];
    let account: ContractAccount = setup(code);
    let mut evm: Evm = Evm::new(account, Word::zero(), vec![]);

    evm.run().unwrap();
    assert_eq!(evm.stack.len(), 1);
    assert_eq!(evm.stack[0], Word::from_u64(4));
}

#[test]
fn arithmetic_test_shift_left() {
    let code: Vec<u8> = vec![0x60, 0x04, 0x60, 0x01, 0x1b, 0x00];
    let account: ContractAccount = setup(code);
    let mut evm: Evm = Evm::new(account, Word::zero(), vec![]);

    evm.run().unwrap();
    assert_eq!(evm.stack.len(), 1);
    assert_eq!(evm.stack[0], Word::from_u64(8));
}

#[test]
fn arithmetic_test_lt_gt_eq() {
    // Less than
    let code: Vec<u8> = vec![0x60, 0x02, 0x60, 0x03, 0x10, 0x00];
    let account: ContractAccount = setup(code);
    let mut evm: Evm = Evm::new(account, Word::zero(), vec![]);

    evm.run().unwrap();
    assert_eq!(evm.stack.len(), 1);
    assert_eq!(evm.stack[0], Word::from_u64(0));

    // Greater than: the first-popped word, 2, is not greater than 3
    let code: Vec<u8> = vec![0x60, 0x03, 0x60, 0x02, 0x11, 0x00];
    let account: ContractAccount = setup(code);
    let mut evm: Evm = Evm::new(account, Word::zero(), vec![]);

    evm.run().unwrap();
    assert_eq!(evm.stack.len(), 1);
    assert_eq!(evm.stack[0], Word::from_u64(0));

    // Equal
    let code: Vec<u8> = vec![0x60, 0x02, 0x60, 0x02, 0x14, 0x00];
    let account: ContractAccount = setup(code);
    let mut evm: Evm = Evm::new(account, Word::zero(), vec![]);

    evm.run().unwrap();
    assert_eq!(evm.stack.len(), 1);
    assert_eq!(evm.stack[0], Word::from_u64(1));
}
