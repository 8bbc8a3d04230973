use mini_evm::abi::{encode_call, function_selector, normalize_signature};
use mini_evm::{ContractAccount, Evm, ExitReason, Storage, Word};

#[test]
fn normalize_keeps_explicit_types() {
    let out: String = normalize_signature("foo(uint256)", &[]);
    assert_eq!(out, "foo(uint256)".to_string());
    let args: Vec<String> = vec!["1".to_string()];
    let out: String = normalize_signature("transfer(address,uint256)", &args);
    assert_eq!(out, "transfer(address,uint256)".to_string());
}

#[test]
fn normalize_writes_word_types() {
    let args: Vec<String> = vec!["1".to_string(), "2".to_string()];
    let out: String = normalize_signature("bar", &args);
    assert_eq!(out, "bar(uint256,uint256)".to_string());
    let args: Vec<String> = vec!["1".to_string()];
    let out: String = normalize_signature("baz(bool)", &args);
    assert_eq!(out, "baz(uint256)".to_string());
    let out: String = normalize_signature("qux()", &[]);
    assert_eq!(out, "qux()".to_string());
}

#[test]
fn selector_is_the_hash_prefix() {
    // the well-known selector of this signature
    let sel: [u8; 4] = function_selector("transfer(address,uint256)");
    assert_eq!(sel, [0xa9, 0x05, 0x9c, 0xbb]);
}

#[test]
fn encode_call_lays_out_selector_and_words() {
    let sel: [u8; 4] = [1, 2, 3, 4];
    let args: Vec<Word> = vec![Word::from_u64(5)];
    let out: Vec<u8> = encode_call(&sel, &args);
    assert_eq!(out.len(), 36);
    assert_eq!(&out[0..4], &[1, 2, 3, 4]);
    assert_eq!(&out[4..35], &[0u8; 31]);
    assert_eq!(out[35], 5);
}

#[test]
fn storage_get_set_round_trip() {
    let mut s: Storage = Storage::new();
    assert_eq!(s.get(&Word::from_u64(9)), Word::zero());
    s.set(&Word::from_u64(9), &Word::from_u64(4));
    assert_eq!(s.get(&Word::from_u64(9)), Word::from_u64(4));
    s.set(&Word::from_u64(9), &Word::from_u64(6));
    assert_eq!(s.get(&Word::from_u64(9)), Word::from_u64(6));
    s.set(&Word::from_u64(9), &Word::zero());
    assert_eq!(s.get(&Word::from_u64(9)), Word::zero());
}

#[test]
fn deploy_then_call_round_trips_an_argument() {
    // Runtime code: return the first call argument.
    //   PUSH1 4, CALLDATALOAD, PUSH1 0, MSTORE, PUSH1 32, PUSH1 0, RETURN
    let runtime: Vec<u8> =
        vec![0x60, 0x04, 0x35, 0x60, 0x00, 0x52, 0x60, 0x20, 0x60, 0x00, 0xf3];
    // Constructor: copy the runtime code out of the deploy code and
    // return it.
    let mut deploy: Vec<u8> = vec![
        0x60, 0x0b, // size 11
        0x60, 0x0c, // offset 12: past this prefix
        0x60, 0x00, // dest 0
        0x39, // CODECOPY
        0x60, 0x0b, 0x60, 0x00, 0xf3, // RETURN memory[0..11]
    ];
    deploy.extend_from_slice(&runtime);

    let account: ContractAccount = ContractAccount::new(deploy);
    let mut evm: Evm = Evm::new(account, Word::zero(), vec![]);
    let returned: Vec<u8> = match evm.run().unwrap() {
        ExitReason::Return(data) => data,
        other => panic!("deployment failed: {:?}", other),
    };
    assert_eq!(returned, runtime);

    // Call the deployed code with an encoded argument.
    let arg_strings: Vec<String> = vec!["99".to_string(), "1234".to_string()];
    let signature: String = normalize_signature("transfer(address,uint256)", &arg_strings);
    let selector: [u8; 4] = function_selector(signature.as_str());
    let args: Vec<Word> = vec![Word::from_u64(99), Word::from_u64(1234)];
    let calldata: Vec<u8> = encode_call(&selector, &args);

    let account: ContractAccount = ContractAccount::new(returned);
    let mut evm: Evm = Evm::new(account, Word::zero(), calldata);
    let output: Vec<u8> = match evm.run().unwrap() {
        ExitReason::Return(data) => data,
        other => panic!("call failed: {:?}", other),
    };
    // Decoding the output as one word reproduces the first argument.
    assert_eq!(output.len(), 32);
    assert_eq!(Word::from_be_bytes(output.as_slice()), Word::from_u64(99));
}

#[test]
fn word_bytes_round_trip() {
    let w: Word = Word { l0: 5, l1: 6, l2: 7, l3: 8 };
    let bytes: Vec<u8> = w.to_be_bytes();
    assert_eq!(bytes.len(), 32);
    assert_eq!(Word::from_be_bytes(bytes.as_slice()), w);
}
