//! The interpreter core: the account, the per-run execution state, and
//! the fetch-decode-execute loop over the code buffer.

use vstd::prelude::*;
use vstd::arithmetic::div_mod::{lemma_fundamental_div_mod_converse, lemma_small_mod};
use crate::word::{
    be_val, lemma_be_val_concat, lemma_be_val_zeros, lemma_le_digits_index, lemma_low_byte,
    lemma_shl_large, lemma_shr_large, lemma_view_bound, lemma_view_injective, lemma_word_below,
    p255, p256, p64, u256_add, u256_div_mod, u256_mul, u256_mulmod, u256_pow, u256_shl, u256_shr,
    u256_sub, word_be_bytes, word_lt, word_slt, Word,
};
use crate::storage::Storage;
use crate::machine::{
    binop_step, binop_val, byte_val, calldataload_step, codecopy_step, contract_address, dup_step,
    exit_step, grow_mem, is_binop, jump_step, keccak_step, lemma_run_m_snoc, mag, max_nat,
    mload_step, modop_step, msg_sender, mstore8_step, mstore_step, neg_wrap, pushn_step, read32,
    run_m, sdiv_val, sload_step, sstore_step, step, swap_step, unop_step, valid_jumpdest,
    words_for, ExitSpec, Machine, StepRes,
};
use vstd::pervasive::VecAdditionalExecFns;

verus! {

/// A host-level failure of a run: malformed or adversarial code, or a
/// value too large for the native address width. Distinct from a
/// reverting outcome, which is a successful completion.
#[derive(Clone, Copy, PartialEq, Eq, Structural, Debug)]
pub enum EvmError {
    /// A byte that is no opcode of the instruction set.
    UnknownOpcode(u8),
    /// An immediate push running past the end of the code.
    TruncatedPush,
    /// An operand pop from too short a stack.
    StackUnderflow,
    /// An offset or size beyond the native address width.
    OffsetOverflow,
    /// An offset plus size overflowing the native address width.
    MemoryOverflow,
    /// The run was cut off by the interpreter's own step counter. The
    /// counter allows 2^64 - 1 instructions, so no run that ends can
    /// reach it; it exists to bound the execution loop.
    StepLimit,
}

/// The largest number of instructions one run may execute.
pub const STEP_LIMIT: u64 = 0xFFFF_FFFF_FFFF_FFFF;

/// How a run ended: the only contract between the interpreter and its
/// caller about a completed run.
#[derive(Debug)]
pub enum ExitReason {
    /// Successful completion carrying output data.
    Return(Vec<u8>),
    /// Explicit failure chosen by the program, carrying reason data.
    Revert(Vec<u8>),
    /// Unconditional stop without data.
    Stop,
}

/// The outcome a completed run denotes.
pub open spec fn exit_view(e: &ExitReason) -> ExitSpec {
    match e {
        ExitReason::Stop => ExitSpec::Stopped,
        ExitReason::Return(d) => ExitSpec::Returned(d@),
        ExitReason::Revert(d) => ExitSpec::Reverted(d@),
    }
}

/// An account: immutable code, persistent storage, and a balance. The
/// storage and balance persist across runs against the account.
pub struct ContractAccount {
    pub code: Vec<u8>,
    pub storage: Storage,
    pub balance: Word,
}

impl ContractAccount {
    /// A fresh account around deployed code, with empty storage and zero
    /// balance.
    pub fn new(code: Vec<u8>) -> (r: ContractAccount)
        ensures
            r.code@ == code@,
            r.storage@ == Map::<nat, nat>::empty(),
            r.storage.wf(),
            r.balance@ == 0,
    {
        ContractAccount { code, storage: Storage::new(), balance: Word::zero() }
    }
}

/// Relies on chrono::Utc::now and chrono::Datelike::day: the day of the
/// month, whatever the clock reads, lies between 1 and 31.
#[verifier::external_body]
fn current_day() -> (r: u32)
    ensures
        1 <= r <= 31,
{
    chrono::Datelike::day(&chrono::Utc::now())
}

/// One run's execution state: program counter, operand stack, linear
/// memory and its word count, the account's storage and code taken for
/// the run, and the immutable call context.
pub struct Evm {
    pub pc: usize,
    pub stack: Vec<Word>,
    pub memory: Vec<u8>,
    pub memory_words: usize,
    pub storage: Storage,
    pub code: Vec<u8>,
    pub halted: bool,
    pub calldata: Vec<u8>,
    pub callvalue: Word,
    pub contract_balance: Word,
    pub block_number: u32,
}

/// The mathematical state this execution state holds.
pub open spec fn machine_of(e: Evm) -> Machine {
    Machine {
        pc: e.pc as nat,
        stack: e.stack@.map_values(|w: Word| w@),
        mem: e.memory@,
        mem_words: e.memory_words as nat,
        store: e.storage@,
        code: e.code@,
        calldata: e.calldata@,
        callvalue: e.callvalue@,
        balance: e.contract_balance@,
        block_number: e.block_number as nat,
        halted: e.halted,
    }
}

impl Evm {
    /// A fresh run against an account: counter at zero, empty stack and
    /// memory, the account's storage and code taken over for the run's
    /// duration, and the given call value and input. The block number is
    /// the day of the month, snapshotted at construction.
    pub fn new(account: ContractAccount, callvalue: Word, calldata: Vec<u8>) -> (r: Evm)
        requires
            account.storage.wf(),
        ensures
            r.pc == 0,
            r.stack@.len() == 0,
            r.memory@.len() == 0,
            r.memory_words == 0,
            r.storage@ == account.storage@,
            r.storage.wf(),
            r.code@ == account.code@,
            !r.halted,
            r.calldata@ == calldata@,
            r.callvalue@ == callvalue@,
            r.contract_balance@ == account.balance@,
            1 <= r.block_number <= 31,
    {
        Evm {
            pc: 0,
            stack: Vec::new(),
            memory: Vec::new(),
            memory_words: 0,
            storage: account.storage,
            code: account.code,
            halted: false,
            calldata,
            callvalue,
            contract_balance: account.balance,
            block_number: current_day(),
        }
    }

    /// Gives the account back after a run: the code and balance it was
    /// built from, and the storage as the run left it.
    pub fn take_account(self) -> (r: ContractAccount)
        ensures
            r.code@ == self.code@,
            r.storage == self.storage,
            r.balance == self.contract_balance,
    {
        ContractAccount { code: self.code, storage: self.storage, balance: self.contract_balance }
    }
}

/// The word for a truth value: one for true, zero for false.
fn bool_word(b: bool) -> (r: Word)
    ensures
        r@ == if b {
            1nat
        } else {
            0nat
        },
{
    if b {
        Word::from_u64(1)
    } else {
        Word::zero()
    }
}

/// The executing account's address as a word.
fn address_word() -> (r: Word)
    ensures
        r@ == contract_address(),
{
    Word { l0: 0xADDD_ECAF_ADDD_ECAF, l1: 0xADDD_ECAF_ADDD_ECAF, l2: 0, l3: 0 }
}

/// The fixed caller and origin as a word.
fn sender_word() -> (r: Word)
    ensures
        r@ == msg_sender(),
{
    Word { l0: 0xDEAD_BEEF_DEAD_BEEF, l1: 0xDEAD_BEEF_DEAD_BEEF, l2: 0, l3: 0 }
}

/// The magnitude of a word under the two's-complement reading.
fn mag_exec(w: &Word) -> (r: Word)
    ensures
        r@ == mag(w@),
{
    proof {
        lemma_view_bound(*w);
    }
    if w.is_negative() {
        proof {
            lemma_small_mod((p256() - w@) as nat, p256());
        }
        u256_sub(&Word::zero(), w)
    } else {
        *w
    }
}

/// The two's-complement negation of a word.
fn neg_exec(w: &Word) -> (r: Word)
    ensures
        r@ == neg_wrap(w@),
{
    proof {
        lemma_view_bound(*w);
        if w@ != 0 {
            lemma_small_mod((p256() - w@) as nat, p256());
        } else {
            vstd::arithmetic::div_mod::lemma_mod_multiples_basic(1, p256() as int);
        }
    }
    u256_sub(&Word::zero(), w)
}

/// Signed division, dividing the first word by the second: full-width
/// two's-complement negation and unsigned division of the magnitudes. A
/// zero divisor gives zero.
fn sdiv_exec(a: &Word, b: &Word) -> (r: Word)
    ensures
        r@ == sdiv_val(a@, b@),
{
    if b.is_zero() {
        return Word::zero();
    }
    let na: bool = a.is_negative();
    let nb: bool = b.is_negative();
    let ma: Word = mag_exec(a);
    let mb: Word = mag_exec(b);
    proof {
        lemma_view_bound(*b);
    }
    let q: Word = u256_div_mod(&ma, &mb).0;
    if na == nb {
        q
    } else {
        neg_exec(&q)
    }
}

/// The byte of a word at an index counting from the most significant
/// byte; indices past 31 give zero.
fn byte_exec(i: &Word, x: &Word) -> (r: Word)
    ensures
        r@ == byte_val(i@, x@),
{
    proof {
        lemma_word_below(*i, 32);
    }
    if i.l1 != 0 || i.l2 != 0 || i.l3 != 0 || i.l0 >= 32 {
        Word::zero()
    } else {
        let bytes: Vec<u8> = x.to_be_bytes();
        let b: u8 = bytes[i.l0 as usize];
        proof {
            crate::word::lemma_low_word(*i);
            lemma_le_digits_index(x@, 32, i.l0 as int);
        }
        Word::from_u64(b as u64)
    }
}

/// A left shift: multiplication by a power of two modulo 2^256; shifts
/// of 256 or more clear the word.
fn shl_exec(v: &Word, s: &Word) -> (r: Word)
    ensures
        r@ == (v@ * vstd::arithmetic::power2::pow2(s@)) % p256(),
{
    proof {
        lemma_word_below(*s, 256);
        lemma_view_bound(*v);
    }
    if s.l1 == 0 && s.l2 == 0 && s.l3 == 0 && s.l0 < 256 {
        proof {
            crate::word::lemma_low_word(*s);
        }
        u256_shl(v, s.l0)
    } else {
        proof {
            lemma_shl_large(v@, s@);
        }
        Word::zero()
    }
}

/// A logical right shift: division by a power of two; shifts of 256 or
/// more clear the word.
fn shr_exec(v: &Word, s: &Word) -> (r: Word)
    ensures
        r@ == v@ / vstd::arithmetic::power2::pow2(s@),
{
    proof {
        lemma_word_below(*s, 256);
        lemma_view_bound(*v);
    }
    if s.l1 == 0 && s.l2 == 0 && s.l3 == 0 && s.l0 < 256 {
        proof {
            crate::word::lemma_low_word(*s);
        }
        u256_shr(v, s.l0)
    } else {
        proof {
            lemma_shr_large(v@, s@);
        }
        Word::zero()
    }
}

/// The word of value 2^128, the square root of the word modulus.
fn two128_word() -> (r: Word)
    ensures
        r@ == 0x1_0000_0000_0000_0000_0000_0000_0000_0000nat,
{
    let r: Word = Word { l0: 0, l1: 0, l2: 1, l3: 0 };
    proof {
        assert(r@ == 0x1_0000_0000_0000_0000_0000_0000_0000_0000nat) by (nonlinear_arith)
            requires
                r@ == ((((0 * p64() + 1) * p64() + 0) * p64() + 0) as nat),
                p64() == 0x1_0000_0000_0000_0000nat,
        ;
    }
    r
}

/// The first word's value is below the second's exactly when their
/// wrapped sum carried out of the top bit.
proof fn lemma_add_carry(a: nat, b: nat)
    requires
        a < p256(),
        b < p256(),
    ensures
        (crate::word::add_wrap(a, b) < a) <==> (a + b >= p256()),
        a + b < p256() ==> crate::word::add_wrap(a, b) == a + b,
        a + b >= p256() ==> crate::word::add_wrap(a, b) == a + b - p256(),
{
    if a + b < p256() {
        lemma_small_mod((a + b) as nat, p256());
    } else {
        lemma_fundamental_div_mod_converse((a + b) as int, p256() as int, 1, (a + b
            - p256()) as int);
    }
}

/// The exact sum of two words reduced by a nonzero modulus: the full
/// 257-bit sum is reduced, not its low 256 bits.
fn addmod_exec(a: &Word, b: &Word, n: &Word) -> (r: Word)
    requires
        n@ != 0,
    ensures
        r@ == (a@ + b@) % n@,
{
    proof {
        lemma_view_bound(*a);
        lemma_view_bound(*b);
        lemma_view_bound(*n);
        lemma_add_carry(a@, b@);
    }
    let s: Word = u256_add(a, b);
    if !word_lt(&s, a) {
        // no carry: the wrapped sum is the exact sum
        return u256_div_mod(&s, n).1;
    }
    // the exact sum is 2^256 + s; reduce 2^256 and s separately
    let h: Word = two128_word();
    let t: Word = u256_mulmod(&h, &h, n);
    let u: Word = u256_div_mod(&s, n).1;
    proof {
        assert(0x1_0000_0000_0000_0000_0000_0000_0000_0000nat
            * 0x1_0000_0000_0000_0000_0000_0000_0000_0000nat == p256()) by (nonlinear_arith);
        assert(t@ == p256() % n@);
        vstd::arithmetic::div_mod::lemma_add_mod_noop(p256() as int, s@ as int, n@ as int);
        assert((t@ + u@) % n@ == (p256() + s@) % n@);
        vstd::arithmetic::div_mod::lemma_mod_bound(p256() as int, n@ as int);
        vstd::arithmetic::div_mod::lemma_mod_bound(s@ as int, n@ as int);
        // t + u never carries: above the sign weight, t is 2^256 - n and
        // u stays below n; at or below it, both stay below the weight
        if n@ > p255() {
            lemma_fundamental_div_mod_converse(p256() as int, n@ as int, 1, (p256()
                - n@) as int);
        }
        assert(t@ + u@ < p256());
        lemma_add_carry(t@, u@);
    }
    let w: Word = u256_add(&t, &u);
    u256_div_mod(&w, n).1
}

/// Whether the opcode pops two words and pushes one.
fn is_binop_exec(op: u8) -> (r: bool)
    ensures
        r == is_binop(op),
{
    op == 0x01 || op == 0x02 || op == 0x03 || op == 0x04 || op == 0x05 || op == 0x06 || op == 0x0A
        || op == 0x10 || op == 0x11 || op == 0x12 || op == 0x13 || op == 0x14 || op == 0x16 || op
        == 0x17 || op == 0x18 || op == 0x1A || op == 0x1B || op == 0x1C
}

/// What a two-operand opcode pushes, from the first-popped word `a` and
/// the second-popped word `b`.
fn compute_binop(op: u8, a: &Word, b: &Word) -> (r: Word)
    requires
        is_binop(op),
    ensures
        r@ == binop_val(op, a@, b@),
{
    if op == 0x01 {
        u256_add(a, b)
    } else if op == 0x02 {
        u256_mul(a, b)
    } else if op == 0x03 {
        u256_sub(a, b)
    } else if op == 0x04 {
        if b.is_zero() {
            Word::zero()
        } else {
            u256_div_mod(a, b).0
        }
    } else if op == 0x05 {
        sdiv_exec(a, b)
    } else if op == 0x06 {
        if b.is_zero() {
            Word::zero()
        } else {
            u256_div_mod(a, b).1
        }
    } else if op == 0x0A {
        u256_pow(a, b)
    } else if op == 0x10 {
        bool_word(word_lt(a, b))
    } else if op == 0x11 {
        bool_word(word_lt(b, a))
    } else if op == 0x12 {
        bool_word(word_slt(a, b))
    } else if op == 0x13 {
        bool_word(word_slt(b, a))
    } else if op == 0x14 {
        proof {
            lemma_view_injective(*a, *b);
        }
        bool_word(*a == *b)
    } else if op == 0x16 {
        a.bitand(b)
    } else if op == 0x17 {
        a.bitor(b)
    } else if op == 0x18 {
        a.bitxor(b)
    } else if op == 0x1A {
        byte_exec(a, b)
    } else if op == 0x1B {
        shl_exec(b, a)
    } else {
        shr_exec(b, a)
    }
}

/// The number of 32-byte words covering `end` bytes.
fn words_exec(end: usize) -> (r: usize)
    ensures
        r as nat == words_for(end as nat),
{
    let q: usize = end / 32;
    let rem: usize = end % 32;
    proof {
        if rem == 0 {
            lemma_fundamental_div_mod_converse(end as int + 31, 32, q as int, 31);
        } else {
            assert(q * 32 + rem == end) by {
                vstd::arithmetic::div_mod::lemma_fundamental_div_mod(end as int, 32);
            };
            assert(q < end) by (nonlinear_arith)
                requires
                    q * 32 + rem == end,
                    rem >= 1,
                    q >= 0,
            ;
            lemma_fundamental_div_mod_converse(
                end as int + 31,
                32,
                q as int + 1,
                rem as int - 1,
            );
        }
    }
    if rem == 0 {
        q
    } else {
        q + 1
    }
}

impl Evm {
    /// Grows memory to at least `end` bytes, zero-filling the new tail;
    /// memory never shrinks, and nothing else changes.
    fn grow_memory(&mut self, end: usize)
        ensures
            final(self).memory@ == grow_mem(old(self).memory@, end as nat),
            final(self).pc == old(self).pc,
            final(self).stack == old(self).stack,
            final(self).memory_words == old(self).memory_words,
            final(self).storage == old(self).storage,
            final(self).code == old(self).code,
            final(self).halted == old(self).halted,
            final(self).calldata == old(self).calldata,
            final(self).callvalue == old(self).callvalue,
            final(self).contract_balance == old(self).contract_balance,
            final(self).block_number == old(self).block_number,
    {
        let ghost pre: Seq<u8> = self.memory@;
        while self.memory.len() < end
            invariant
                pre == old(self).memory@,
                self.memory@.len() >= pre.len(),
                self.memory@ =~= pre + Seq::new(
                    (self.memory@.len() - pre.len()) as nat,
                    |i: int| 0u8,
                ),
                self.memory@.len() <= end || self.memory@.len() == pre.len(),
                self.pc == old(self).pc,
                self.stack == old(self).stack,
                self.memory_words == old(self).memory_words,
                self.storage == old(self).storage,
                self.code == old(self).code,
                self.halted == old(self).halted,
                self.calldata == old(self).calldata,
                self.callvalue == old(self).callvalue,
                self.contract_balance == old(self).contract_balance,
                self.block_number == old(self).block_number,
            decreases end - self.memory@.len(),
        {
            self.memory.push(0);
        }
        proof {
            if pre.len() >= end {
                assert(self.memory@ =~= pre);
            } else {
                assert(self.memory@ =~= grow_mem(pre, end as nat));
            }
        }
    }
}

impl Evm {
    /// A two-operand opcode, the program counter already advanced.
    fn do_binop(&mut self, op: u8) -> (r: Option<Result<ExitReason, EvmError>>)
        requires
            is_binop(op),
            old(self).storage.wf(),
        ensures
            final(self).storage.wf(),
            (match r {
                None => binop_step(machine_of(*old(self)), op) == StepRes::Next(
                    machine_of(*final(self)),
                ),
                Some(Ok(exit)) => false,
                Some(Err(e)) => binop_step(machine_of(*old(self)), op) == StepRes::Fail(e)
                    && machine_of(*final(self)) == machine_of(*old(self)),
            }),
    {
        let ghost m1 = machine_of(*self);
        if self.stack.len() < 2 {
            return Some(Err(EvmError::StackUnderflow));
        }
        let a: Word = self.stack.pop().unwrap();
        let b: Word = self.stack.pop().unwrap();
        let w: Word = compute_binop(op, &a, &b);
        self.stack.push(w);
        proof {
            assert(machine_of(*self) =~= (Machine {
                stack: m1.stack.drop_last().drop_last().push(
                    binop_val(op, m1.stack.last(), m1.stack[m1.stack.len() - 2]),
                ),
                ..m1
            }));
        }
        None
    }

    /// A one-operand opcode, the program counter already advanced.
    fn do_unop(&mut self, op: u8) -> (r: Option<Result<ExitReason, EvmError>>)
        requires
            op == 0x15 || op == 0x19,
            old(self).storage.wf(),
        ensures
            final(self).storage.wf(),
            (match r {
                None => unop_step(machine_of(*old(self)), op) == StepRes::Next(
                    machine_of(*final(self)),
                ),
                Some(Ok(exit)) => false,
                Some(Err(e)) => unop_step(machine_of(*old(self)), op) == StepRes::Fail(e)
                    && machine_of(*final(self)) == machine_of(*old(self)),
            }),
    {
        let ghost m1 = machine_of(*self);
        if self.stack.len() < 1 {
            return Some(Err(EvmError::StackUnderflow));
        }
        let a: Word = self.stack.pop().unwrap();
        let w: Word = if op == 0x15 {
            bool_word(a.is_zero())
        } else {
            a.bitnot()
        };
        self.stack.push(w);
        proof {
            assert(machine_of(*self) =~= (Machine {
                stack: m1.stack.drop_last().push(w@),
                ..m1
            }));
        }
        None
    }

    /// A three-operand modular opcode, the program counter already
    /// advanced.
    fn do_modop(&mut self, op: u8) -> (r: Option<Result<ExitReason, EvmError>>)
        requires
            op == 0x08 || op == 0x09,
            old(self).storage.wf(),
        ensures
            final(self).storage.wf(),
            (match r {
                None => modop_step(machine_of(*old(self)), op) == StepRes::Next(
                    machine_of(*final(self)),
                ),
                Some(Ok(exit)) => false,
                Some(Err(e)) => modop_step(machine_of(*old(self)), op) == StepRes::Fail(e)
                    && machine_of(*final(self)) == machine_of(*old(self)),
            }),
    {
        let ghost m1 = machine_of(*self);
        if self.stack.len() < 3 {
            return Some(Err(EvmError::StackUnderflow));
        }
        let a: Word = self.stack.pop().unwrap();
        let b: Word = self.stack.pop().unwrap();
        let n: Word = self.stack.pop().unwrap();
        let w: Word = if n.is_zero() {
            Word::zero()
        } else if op == 0x08 {
            addmod_exec(&a, &b, &n)
        } else {
            u256_mulmod(&a, &b, &n)
        };
        self.stack.push(w);
        proof {
            assert(machine_of(*self) =~= (Machine {
                stack: m1.stack.drop_last().drop_last().drop_last().push(w@),
                ..m1
            }));
        }
        None
    }

    /// Reading storage, the program counter already advanced.
    fn do_sload(&mut self) -> (r: Option<Result<ExitReason, EvmError>>)
        requires
            old(self).storage.wf(),
        ensures
            final(self).storage.wf(),
            (match r {
                None => sload_step(machine_of(*old(self))) == StepRes::Next(
                    machine_of(*final(self)),
                ),
                Some(Ok(exit)) => false,
                Some(Err(e)) => sload_step(machine_of(*old(self))) == StepRes::Fail(e)
                    && machine_of(*final(self)) == machine_of(*old(self)),
            }),
    {
        let ghost m1 = machine_of(*self);
        if self.stack.len() < 1 {
            return Some(Err(EvmError::StackUnderflow));
        }
        let k: Word = self.stack.pop().unwrap();
        let v: Word = self.storage.get(&k);
        self.stack.push(v);
        proof {
            assert(machine_of(*self) =~= (Machine {
                stack: m1.stack.drop_last().push(v@),
                ..m1
            }));
        }
        None
    }

    /// Writing storage, the program counter already advanced.
    fn do_sstore(&mut self) -> (r: Option<Result<ExitReason, EvmError>>)
        requires
            old(self).storage.wf(),
        ensures
            final(self).storage.wf(),
            (match r {
                None => sstore_step(machine_of(*old(self))) == StepRes::Next(
                    machine_of(*final(self)),
                ),
                Some(Ok(exit)) => false,
                Some(Err(e)) => sstore_step(machine_of(*old(self))) == StepRes::Fail(e)
                    && machine_of(*final(self)) == machine_of(*old(self)),
            }),
    {
        let ghost m1 = machine_of(*self);
        if self.stack.len() < 2 {
            return Some(Err(EvmError::StackUnderflow));
        }
        let k: Word = self.stack.pop().unwrap();
        let v: Word = self.stack.pop().unwrap();
        self.storage.set(&k, &v);
        proof {
            assert(machine_of(*self) =~= (Machine {
                stack: m1.stack.drop_last().drop_last(),
                store: if v@ == 0 {
                    m1.store.remove(k@)
                } else {
                    m1.store.insert(k@, v@)
                },
                ..m1
            }));
        }
        None
    }

    /// Duplicating a stack word, the program counter already advanced.
    fn do_dup(&mut self, op: u8) -> (r: Option<Result<ExitReason, EvmError>>)
        requires
            0x80 <= op && op <= 0x8f,
            old(self).storage.wf(),
        ensures
            final(self).storage.wf(),
            (match r {
                None => dup_step(machine_of(*old(self)), (op - 0x7f) as nat) == StepRes::Next(
                    machine_of(*final(self)),
                ),
                Some(Ok(exit)) => false,
                Some(Err(e)) => dup_step(machine_of(*old(self)), (op - 0x7f) as nat)
                    == StepRes::Fail(e)
                    && machine_of(*final(self)) == machine_of(*old(self)),
            }),
    {
        let ghost m1 = machine_of(*self);
        let n: usize = (op - 0x7f) as usize;
        if self.stack.len() < n {
            return Some(Err(EvmError::StackUnderflow));
        }
        let w: Word = self.stack[self.stack.len() - n];
        self.stack.push(w);
        proof {
            assert(machine_of(*self) =~= (Machine {
                stack: m1.stack.push(m1.stack[m1.stack.len() - n]),
                ..m1
            }));
        }
        None
    }

    /// Swapping two stack words, the program counter already advanced.
    fn do_swap(&mut self, op: u8) -> (r: Option<Result<ExitReason, EvmError>>)
        requires
            0x90 <= op && op <= 0x9f,
            old(self).storage.wf(),
        ensures
            final(self).storage.wf(),
            (match r {
                None => swap_step(machine_of(*old(self)), (op - 0x8f) as nat) == StepRes::Next(
                    machine_of(*final(self)),
                ),
                Some(Ok(exit)) => false,
                Some(Err(e)) => swap_step(machine_of(*old(self)), (op - 0x8f) as nat)
                    == StepRes::Fail(e)
                    && machine_of(*final(self)) == machine_of(*old(self)),
            }),
    {
        let ghost m1 = machine_of(*self);
        let n: usize = (op - 0x8f) as usize;
        let len: usize = self.stack.len();
        if len <= n {
            return Some(Err(EvmError::StackUnderflow));
        }
        let top: Word = self.stack[len - 1];
        let other: Word = self.stack[len - 1 - n];
        self.stack.set(len - 1, other);
        self.stack.set(len - 1 - n, top);
        proof {
            assert(machine_of(*self) =~= (Machine {
                stack: m1.stack.update(len - 1, m1.stack[len - 1 - n]).update(
                    len - 1 - n,
                    m1.stack[len - 1],
                ),
                ..m1
            }));
        }
        None
    }

    /// An immediate push, the program counter already advanced past the
    /// opcode byte but not the immediate.
    fn do_pushn(&mut self, op: u8) -> (r: Option<Result<ExitReason, EvmError>>)
        requires
            0x60 <= op && op <= 0x7f,
            old(self).pc <= old(self).code@.len(),
            old(self).storage.wf(),
        ensures
            final(self).storage.wf(),
            (match r {
                None => pushn_step(machine_of(*old(self)), (op - 0x5f) as nat) == StepRes::Next(
                    machine_of(*final(self)),
                ),
                Some(Ok(exit)) => false,
                Some(Err(e)) => pushn_step(machine_of(*old(self)), (op - 0x5f) as nat)
                    == StepRes::Fail(e)
                    && machine_of(*final(self)) == machine_of(*old(self)),
            }),
    {
        let ghost m1 = machine_of(*self);
        let n: usize = (op - 0x5f) as usize;
        let clen: usize = self.code.len();
        if n > clen - self.pc {
            return Some(Err(EvmError::TruncatedPush));
        }
        let ghost sub: Seq<u8> = self.code@.subrange(self.pc as int, self.pc + n as int);
        let mut buf: Vec<u8> = Vec::new();
        let mut j: usize = 0;
        while j < 32 - n
            invariant
                n <= 32,
                j <= 32 - n,
                buf@.len() == j,
                forall|t: int| 0 <= t < j ==> buf@[t] == 0u8,
            decreases 32 - n - j,
        {
            buf.push(0);
            j = j + 1;
        }
        let ghost zeros: Seq<u8> = buf@;
        let mut k: usize = 0;
        while k < n
            invariant
                n <= 32,
                k <= n,
                clen == self.code@.len(),
                self.pc + n <= clen,
                buf@.len() == 32 - n + k,
                buf@ == zeros + self.code@.subrange(self.pc as int, self.pc + k as int),
                zeros.len() == 32 - n,
            decreases n - k,
        {
            let byte: u8 = self.code[self.pc + k];
            buf.push(byte);
            proof {
                assert(buf@ =~= zeros + self.code@.subrange(
                    self.pc as int,
                    self.pc + (k + 1) as int,
                ));
            }
            k = k + 1;
        }
        let w: Word = Word::from_be_bytes(buf.as_slice());
        self.pc = self.pc + n;
        self.stack.push(w);
        proof {
            assert(buf@ == zeros + sub);
            lemma_be_val_concat(zeros, sub);
            lemma_be_val_zeros(zeros);
            assert(w@ == be_val(sub));
            assert(machine_of(*self) =~= (Machine {
                pc: (m1.pc + (op - 0x5f)) as nat,
                stack: m1.stack.push(be_val(sub)),
                ..m1
            }));
        }
        None
    }

    /// Whether a word names a legal jump target, and the target where it
    /// does.
    fn jump_target(&self, dest: &Word) -> (r: Option<usize>)
        ensures
            (match r {
                Some(d) => valid_jumpdest(self.code@, dest@) && d as nat == dest@,
                None => !valid_jumpdest(self.code@, dest@),
            }),
    {
        let clen: usize = self.code.len();
        match dest.to_usize_checked() {
            Some(d) => {
                if d < clen && self.code[d] == 0x5b {
                    Some(d)
                } else {
                    None
                }
            },
            None => None,
        }
    }

    /// A jump opcode, the program counter already advanced: an illegal
    /// target reverts with a one-byte payload naming the opcode.
    fn do_jump(&mut self, op: u8) -> (r: Option<Result<ExitReason, EvmError>>)
        requires
            op == 0x56 || op == 0x57,
            old(self).storage.wf(),
        ensures
            final(self).storage.wf(),
            (match r {
                None => jump_step(machine_of(*old(self)), op) == StepRes::Next(
                    machine_of(*final(self)),
                ),
                Some(Ok(exit)) => jump_step(machine_of(*old(self)), op) == StepRes::Halt(
                    machine_of(*final(self)),
                    exit_view(&exit),
                ),
                Some(Err(e)) => jump_step(machine_of(*old(self)), op) == StepRes::Fail(e)
                    && machine_of(*final(self)) == machine_of(*old(self)),
            }),
    {
        let ghost m1 = machine_of(*self);
        if op == 0x56 {
            if self.stack.len() < 1 {
                return Some(Err(EvmError::StackUnderflow));
            }
            let dest: Word = self.stack.pop().unwrap();
            match self.jump_target(&dest) {
                Some(d) => {
                    self.pc = d;
                    proof {
                        assert(machine_of(*self) =~= (Machine {
                            pc: dest@,
                            stack: m1.stack.drop_last(),
                            ..m1
                        }));
                    }
                    None
                },
                None => {
                    let mut payload: Vec<u8> = Vec::new();
                    payload.push(0x56);
                    proof {
                        assert(payload@ =~= seq![0x56u8]);
                        assert(machine_of(*self) =~= (Machine {
                            stack: m1.stack.drop_last(),
                            ..m1
                        }));
                    }
                    Some(Ok(ExitReason::Revert(payload)))
                },
            }
        } else {
            if self.stack.len() < 2 {
                return Some(Err(EvmError::StackUnderflow));
            }
            let dest: Word = self.stack.pop().unwrap();
            let cond: Word = self.stack.pop().unwrap();
            if cond.is_zero() {
                proof {
                    assert(machine_of(*self) =~= (Machine {
                        stack: m1.stack.drop_last().drop_last(),
                        ..m1
                    }));
                }
                return None;
            }
            match self.jump_target(&dest) {
                Some(d) => {
                    self.pc = d;
                    proof {
                        assert(machine_of(*self) =~= (Machine {
                            pc: dest@,
                            stack: m1.stack.drop_last().drop_last(),
                            ..m1
                        }));
                    }
                    None
                },
                None => {
                    let mut payload: Vec<u8> = Vec::new();
                    payload.push(0x57);
                    proof {
                        assert(payload@ =~= seq![0x57u8]);
                        assert(machine_of(*self) =~= (Machine {
                            stack: m1.stack.drop_last().drop_last(),
                            ..m1
                        }));
                    }
                    Some(Ok(ExitReason::Revert(payload)))
                },
            }
        }
    }

    /// Reading 32 bytes of call input, the program counter already
    /// advanced.
    fn do_calldataload(&mut self) -> (r: Option<Result<ExitReason, EvmError>>)
        requires
            old(self).storage.wf(),
        ensures
            final(self).storage.wf(),
            (match r {
                None => calldataload_step(machine_of(*old(self))) == StepRes::Next(
                    machine_of(*final(self)),
                ),
                Some(Ok(exit)) => false,
                Some(Err(e)) => calldataload_step(machine_of(*old(self))) == StepRes::Fail(e)
                    && machine_of(*final(self)) == machine_of(*old(self)),
            }),
    {
        let ghost m1 = machine_of(*self);
        if self.stack.len() < 1 {
            return Some(Err(EvmError::StackUnderflow));
        }
        let off_w: Word = self.stack[self.stack.len() - 1];
        let off: usize = match off_w.to_usize_checked() {
            Some(o) => o,
            None => {
                return Some(Err(EvmError::OffsetOverflow));
            },
        };
        let _ = self.stack.pop();
        let cdlen: usize = self.calldata.len();
        let mut buf: Vec<u8> = Vec::new();
        let mut j: usize = 0;
        while j < 32
            invariant
                j <= 32,
                cdlen == self.calldata@.len(),
                buf@.len() == j,
                forall|t: int| 0 <= t < j ==> buf@[t] == read32(self.calldata@, off as nat)[t],
            decreases 32 - j,
        {
            if off < cdlen && j < cdlen - off {
                let byte: u8 = self.calldata[off + j];
                buf.push(byte);
            } else {
                buf.push(0);
            }
            j = j + 1;
        }
        let w: Word = Word::from_be_bytes(buf.as_slice());
        self.stack.push(w);
        proof {
            assert(buf@ =~= read32(self.calldata@, off as nat));
            assert(machine_of(*self) =~= (Machine {
                stack: m1.stack.drop_last().push(be_val(read32(m1.calldata, off_w@))),
                ..m1
            }));
        }
        None
    }
}

impl Evm {
    /// Loading a 32-byte memory slot, the program counter already
    /// advanced.
    fn do_mload(&mut self) -> (r: Option<Result<ExitReason, EvmError>>)
        requires
            old(self).storage.wf(),
        ensures
            final(self).storage.wf(),
            (match r {
                None => mload_step(machine_of(*old(self))) == StepRes::Next(
                    machine_of(*final(self)),
                ),
                Some(Ok(exit)) => false,
                Some(Err(e)) => mload_step(machine_of(*old(self))) == StepRes::Fail(e)
                    && machine_of(*final(self)) == machine_of(*old(self)),
            }),
    {
        let ghost m1 = machine_of(*self);
        if self.stack.len() < 1 {
            return Some(Err(EvmError::StackUnderflow));
        }
        let off_w: Word = self.stack[self.stack.len() - 1];
        let off: usize = match off_w.to_usize_checked() {
            Some(o) => o,
            None => {
                return Some(Err(EvmError::OffsetOverflow));
            },
        };
        if off > usize::MAX - 32 {
            return Some(Err(EvmError::MemoryOverflow));
        }
        let _ = self.stack.pop();
        let end: usize = off + 32;
        let words: usize = words_exec(end);
        if words > self.memory_words {
            self.memory_words = words;
        }
        self.grow_memory(end);
        let mlen: usize = self.memory.len();
        let mut buf: Vec<u8> = Vec::new();
        let mut j: usize = 0;
        while j < 32
            invariant
                j <= 32,
                mlen == self.memory@.len(),
                off + 32 <= mlen,
                buf@.len() == j,
                forall|t: int| 0 <= t < j ==> buf@[t] == self.memory@[off + t],
            decreases 32 - j,
        {
            let byte: u8 = self.memory[off + j];
            buf.push(byte);
            j = j + 1;
        }
        let w: Word = Word::from_be_bytes(buf.as_slice());
        self.stack.push(w);
        proof {
            assert(buf@ =~= self.memory@.subrange(off as int, off + 32));
            assert(machine_of(*self) =~= (Machine {
                mem: grow_mem(m1.mem, off_w@ + 32),
                mem_words: max_nat(m1.mem_words, words_for((off + 32) as nat)),
                stack: m1.stack.drop_last().push(
                    be_val(grow_mem(m1.mem, off_w@ + 32).subrange(off as int, off + 32)),
                ),
                ..m1
            }));
        }
        None
    }

    /// Storing a word into a 32-byte memory slot, the program counter
    /// already advanced.
    fn do_mstore(&mut self) -> (r: Option<Result<ExitReason, EvmError>>)
        requires
            old(self).storage.wf(),
        ensures
            final(self).storage.wf(),
            (match r {
                None => mstore_step(machine_of(*old(self))) == StepRes::Next(
                    machine_of(*final(self)),
                ),
                Some(Ok(exit)) => false,
                Some(Err(e)) => mstore_step(machine_of(*old(self))) == StepRes::Fail(e)
                    && machine_of(*final(self)) == machine_of(*old(self)),
            }),
    {
        let ghost m1 = machine_of(*self);
        if self.stack.len() < 2 {
            return Some(Err(EvmError::StackUnderflow));
        }
        let off_w: Word = self.stack[self.stack.len() - 1];
        let off: usize = match off_w.to_usize_checked() {
            Some(o) => o,
            None => {
                return Some(Err(EvmError::OffsetOverflow));
            },
        };
        if off > usize::MAX - 32 {
            return Some(Err(EvmError::MemoryOverflow));
        }
        let _ = self.stack.pop();
        let val: Word = self.stack.pop().unwrap();
        let end: usize = off + 32;
        let words: usize = words_exec(end);
        if words > self.memory_words {
            self.memory_words = words;
        }
        self.grow_memory(end);
        let ghost grown: Seq<u8> = self.memory@;
        let mlen: usize = self.memory.len();
        let bytes: Vec<u8> = val.to_be_bytes();
        let ghost snap: Evm = *self;
        let mut j: usize = 0;
        while j < 32
            invariant
                j <= 32,
                mlen == snap.memory@.len(),
                off + 32 <= mlen,
                bytes@ == word_be_bytes(val@),
                bytes@.len() == 32,
                self.memory@.len() == snap.memory@.len(),
                forall|t: int| 0 <= t < j ==> self.memory@[off + t] == bytes@[t],
                forall|t: int|
                    0 <= t < self.memory@.len() && !(off <= t < off + j) ==> self.memory@[t]
                        == snap.memory@[t],
                self.pc == snap.pc,
                self.stack == snap.stack,
                self.memory_words == snap.memory_words,
                self.storage == snap.storage,
                self.code == snap.code,
                self.halted == snap.halted,
                self.calldata == snap.calldata,
                self.callvalue == snap.callvalue,
                self.contract_balance == snap.contract_balance,
                self.block_number == snap.block_number,
            decreases 32 - j,
        {
            let byte: u8 = bytes[j];
            self.memory.set(off + j, byte);
            j = j + 1;
        }
        proof {
            assert(machine_of(*self) =~= (Machine {
                mem: Seq::new(
                    grown.len(),
                    |i: int|
                        if off <= i < off + 32 {
                            word_be_bytes(val@)[i - off]
                        } else {
                            grown[i]
                        },
                ),
                mem_words: max_nat(m1.mem_words, words_for((off + 32) as nat)),
                stack: m1.stack.drop_last().drop_last(),
                ..m1
            }));
        }
        None
    }

    /// Storing the low byte of a word, the program counter already
    /// advanced.
    fn do_mstore8(&mut self) -> (r: Option<Result<ExitReason, EvmError>>)
        requires
            old(self).storage.wf(),
        ensures
            final(self).storage.wf(),
            (match r {
                None => mstore8_step(machine_of(*old(self))) == StepRes::Next(
                    machine_of(*final(self)),
                ),
                Some(Ok(exit)) => false,
                Some(Err(e)) => mstore8_step(machine_of(*old(self))) == StepRes::Fail(e)
                    && machine_of(*final(self)) == machine_of(*old(self)),
            }),
    {
        let ghost m1 = machine_of(*self);
        if self.stack.len() < 2 {
            return Some(Err(EvmError::StackUnderflow));
        }
        let off_w: Word = self.stack[self.stack.len() - 1];
        let off: usize = match off_w.to_usize_checked() {
            Some(o) => o,
            None => {
                return Some(Err(EvmError::OffsetOverflow));
            },
        };
        if off > usize::MAX - 1 {
            return Some(Err(EvmError::MemoryOverflow));
        }
        let _ = self.stack.pop();
        let val: Word = self.stack.pop().unwrap();
        let end: usize = off + 1;
        let words: usize = words_exec(end);
        if words > self.memory_words {
            self.memory_words = words;
        }
        self.grow_memory(end);
        let byte: u8 = (val.l0 % 256) as u8;
        self.memory.set(off, byte);
        proof {
            lemma_low_byte(val);
            assert(machine_of(*self) =~= (Machine {
                mem: grow_mem(m1.mem, off_w@ + 1).update(off as int, (val@ % 256) as u8),
                mem_words: max_nat(m1.mem_words, words_for((off + 1) as nat)),
                stack: m1.stack.drop_last().drop_last(),
                ..m1
            }));
        }
        None
    }

    /// Copying a code range into memory, the program counter already
    /// advanced.
    fn do_codecopy(&mut self) -> (r: Option<Result<ExitReason, EvmError>>)
        requires
            old(self).storage.wf(),
        ensures
            final(self).storage.wf(),
            (match r {
                None => codecopy_step(machine_of(*old(self))) == StepRes::Next(
                    machine_of(*final(self)),
                ),
                Some(Ok(exit)) => false,
                Some(Err(e)) => codecopy_step(machine_of(*old(self))) == StepRes::Fail(e)
                    && machine_of(*final(self)) == machine_of(*old(self)),
            }),
    {
        let ghost m1 = machine_of(*self);
        if self.stack.len() < 3 {
            return Some(Err(EvmError::StackUnderflow));
        }
        let dest_w: Word = self.stack[self.stack.len() - 1];
        let off_w: Word = self.stack[self.stack.len() - 2];
        let size_w: Word = self.stack[self.stack.len() - 3];
        let dest: usize = match dest_w.to_usize_checked() {
            Some(d) => d,
            None => {
                return Some(Err(EvmError::OffsetOverflow));
            },
        };
        let off: usize = match off_w.to_usize_checked() {
            Some(o) => o,
            None => {
                return Some(Err(EvmError::OffsetOverflow));
            },
        };
        let size: usize = match size_w.to_usize_checked() {
            Some(s) => s,
            None => {
                return Some(Err(EvmError::OffsetOverflow));
            },
        };
        if size > usize::MAX - dest {
            return Some(Err(EvmError::MemoryOverflow));
        }
        let _ = self.stack.pop();
        let _ = self.stack.pop();
        let _ = self.stack.pop();
        let end: usize = dest + size;
        self.grow_memory(end);
        let ghost grown: Seq<u8> = self.memory@;
        let mlen: usize = self.memory.len();
        let clen: usize = self.code.len();
        let ghost snap: Evm = *self;
        let mut i: usize = 0;
        while i < size
            invariant
                i <= size,
                mlen == snap.memory@.len(),
                dest + size <= mlen,
                clen == snap.code@.len(),
                self.memory@.len() == snap.memory@.len(),
                forall|t: int|
                    0 <= t < i ==> #[trigger] self.memory@[dest + t] == (if off + t
                        < snap.code@.len() {
                        snap.code@[off + t]
                    } else {
                        0u8
                    }),
                forall|t: int|
                    0 <= t < self.memory@.len() && !(dest <= t < dest + i) ==> self.memory@[t]
                        == snap.memory@[t],
                self.pc == snap.pc,
                self.stack == snap.stack,
                self.memory_words == snap.memory_words,
                self.storage == snap.storage,
                self.code == snap.code,
                self.halted == snap.halted,
                self.calldata == snap.calldata,
                self.callvalue == snap.callvalue,
                self.contract_balance == snap.contract_balance,
                self.block_number == snap.block_number,
            decreases size - i,
        {
            let byte: u8 = if off < clen && i < clen - off {
                self.code[off + i]
            } else {
                0
            };
            self.memory.set(dest + i, byte);
            i = i + 1;
        }
        proof {
            let overlay: Seq<u8> = Seq::new(
                grown.len(),
                |t: int|
                    if dest <= t < dest + size {
                        if off + (t - dest) < m1.code.len() {
                            m1.code[off + (t - dest)]
                        } else {
                            0u8
                        }
                    } else {
                        grown[t]
                    },
            );
            assert forall|t: int| 0 <= t < grown.len() implies self.memory@[t] == overlay[t] by {
                if dest <= t < dest + size {
                    assert(self.memory@[dest + (t - dest)] == (if off + (t - dest)
                        < snap.code@.len() {
                        snap.code@[off + (t - dest)]
                    } else {
                        0u8
                    }));
                }
            }
            assert(self.memory@ =~= overlay);
            assert(machine_of(*self) =~= (Machine {
                mem: overlay,
                stack: m1.stack.drop_last().drop_last().drop_last(),
                ..m1
            }));
        }
        None
    }

    /// Hashing a memory range, the program counter already advanced.
    fn do_keccak(&mut self) -> (r: Option<Result<ExitReason, EvmError>>)
        requires
            old(self).storage.wf(),
        ensures
            final(self).storage.wf(),
            (match r {
                None => keccak_step(machine_of(*old(self))) == StepRes::Next(
                    machine_of(*final(self)),
                ),
                Some(Ok(exit)) => false,
                Some(Err(e)) => keccak_step(machine_of(*old(self))) == StepRes::Fail(e)
                    && machine_of(*final(self)) == machine_of(*old(self)),
            }),
    {
        let ghost m1 = machine_of(*self);
        if self.stack.len() < 2 {
            return Some(Err(EvmError::StackUnderflow));
        }
        let off_w: Word = self.stack[self.stack.len() - 1];
        let size_w: Word = self.stack[self.stack.len() - 2];
        let off: usize = match off_w.to_usize_checked() {
            Some(o) => o,
            None => {
                return Some(Err(EvmError::OffsetOverflow));
            },
        };
        let size: usize = match size_w.to_usize_checked() {
            Some(s) => s,
            None => {
                return Some(Err(EvmError::OffsetOverflow));
            },
        };
        if size > usize::MAX - off {
            return Some(Err(EvmError::MemoryOverflow));
        }
        let _ = self.stack.pop();
        let _ = self.stack.pop();
        let end: usize = off + size;
        self.grow_memory(end);
        let mlen: usize = self.memory.len();
        let mut data: Vec<u8> = Vec::new();
        let mut j: usize = 0;
        while j < size
            invariant
                j <= size,
                mlen == self.memory@.len(),
                off + size <= mlen,
                data@.len() == j,
                forall|t: int| 0 <= t < j ==> data@[t] == self.memory@[off + t],
            decreases size - j,
        {
            let byte: u8 = self.memory[off + j];
            data.push(byte);
            j = j + 1;
        }
        let hash: Vec<u8> = crate::keccak::keccak256(data.as_slice());
        let w: Word = Word::from_be_bytes(hash.as_slice());
        self.stack.push(w);
        proof {
            assert(data@ =~= grow_mem(m1.mem, off_w@ + size_w@).subrange(
                off as int,
                (off + size) as int,
            ));
            assert(machine_of(*self) =~= (Machine {
                mem: grow_mem(m1.mem, off_w@ + size_w@),
                stack: m1.stack.drop_last().drop_last().push(
                    be_val(
                        crate::keccak::keccak256_of(
                            grow_mem(m1.mem, off_w@ + size_w@).subrange(
                                off as int,
                                (off + size) as int,
                            ),
                        ),
                    ),
                ),
                ..m1
            }));
        }
        None
    }

    /// Terminating with data, the program counter already advanced: the
    /// normal return or the explicit revert.
    fn do_exit(&mut self, op: u8) -> (r: Option<Result<ExitReason, EvmError>>)
        requires
            op == 0xf3 || op == 0xfd,
            old(self).storage.wf(),
        ensures
            final(self).storage.wf(),
            (match r {
                None => false,
                Some(Ok(exit)) => exit_step(machine_of(*old(self)), op) == StepRes::Halt(
                    machine_of(*final(self)),
                    exit_view(&exit),
                ),
                Some(Err(e)) => exit_step(machine_of(*old(self)), op) == StepRes::Fail(e)
                    && machine_of(*final(self)) == machine_of(*old(self)),
            }),
    {
        let ghost m1 = machine_of(*self);
        if self.stack.len() < 2 {
            return Some(Err(EvmError::StackUnderflow));
        }
        let off_w: Word = self.stack[self.stack.len() - 1];
        let size_w: Word = self.stack[self.stack.len() - 2];
        let off: usize = match off_w.to_usize_checked() {
            Some(o) => o,
            None => {
                return Some(Err(EvmError::OffsetOverflow));
            },
        };
        let size: usize = match size_w.to_usize_checked() {
            Some(s) => s,
            None => {
                return Some(Err(EvmError::OffsetOverflow));
            },
        };
        if size > usize::MAX - off {
            return Some(Err(EvmError::MemoryOverflow));
        }
        let _ = self.stack.pop();
        let _ = self.stack.pop();
        let end: usize = off + size;
        self.grow_memory(end);
        let mlen: usize = self.memory.len();
        let mut data: Vec<u8> = Vec::new();
        let mut j: usize = 0;
        while j < size
            invariant
                j <= size,
                mlen == self.memory@.len(),
                off + size <= mlen,
                data@.len() == j,
                forall|t: int| 0 <= t < j ==> data@[t] == self.memory@[off + t],
            decreases size - j,
        {
            let byte: u8 = self.memory[off + j];
            data.push(byte);
            j = j + 1;
        }
        proof {
            assert(data@ =~= grow_mem(m1.mem, off_w@ + size_w@).subrange(
                off as int,
                (off + size) as int,
            ));
            assert(machine_of(*self) =~= (Machine {
                mem: grow_mem(m1.mem, off_w@ + size_w@),
                stack: m1.stack.drop_last().drop_last(),
                ..m1
            }));
        }
        if op == 0xf3 {
            Some(Ok(ExitReason::Return(data)))
        } else {
            Some(Ok(ExitReason::Revert(data)))
        }
    }
}

impl Evm {
    /// One fetch-decode-execute step: reads the opcode at the program
    /// counter, advances past it, and executes it. `None` means the run
    /// goes on; `Some` carries the terminal outcome or the failure.
    fn step_exec(&mut self) -> (r: Option<Result<ExitReason, EvmError>>)
        requires
            old(self).storage.wf(),
        ensures
            final(self).storage.wf(),
            (match r {
                None => step(machine_of(*old(self))) == StepRes::Next(machine_of(*final(self))),
                Some(Ok(exit)) => step(machine_of(*old(self))) == StepRes::Halt(
                    machine_of(*final(self)),
                    exit_view(&exit),
                ),
                Some(Err(e)) => step(machine_of(*old(self))) == StepRes::Fail(e)
                    && machine_of(*final(self)) == machine_of(*old(self)),
            }),
    {
        let ghost m = machine_of(*self);
        if self.halted {
            return Some(Ok(ExitReason::Stop));
        }
        if self.pc >= self.code.len() {
            return Some(Ok(ExitReason::Stop));
        }
        let op: u8 = self.code[self.pc];
        self.pc = self.pc + 1;
        let ghost m1 = machine_of(*self);
        proof {
            assert(m1 =~= (Machine { pc: (m.pc + 1) as nat, ..m }));
        }
        let r: Option<Result<ExitReason, EvmError>> = if op == 0x00 {
            Some(Ok(ExitReason::Stop))
        } else if is_binop_exec(op) {
            self.do_binop(op)
        } else if op == 0x15 || op == 0x19 {
            self.do_unop(op)
        } else if op == 0x08 || op == 0x09 {
            self.do_modop(op)
        } else if op == 0x20 {
            self.do_keccak()
        } else if op == 0x30 {
            let w: Word = address_word();
            self.stack.push(w);
            proof {
                assert(machine_of(*self) =~= (Machine { stack: m1.stack.push(w@), ..m1 }));
            }
            None
        } else if op == 0x32 || op == 0x33 {
            let w: Word = sender_word();
            self.stack.push(w);
            proof {
                assert(machine_of(*self) =~= (Machine { stack: m1.stack.push(w@), ..m1 }));
            }
            None
        } else if op == 0x34 {
            let w: Word = self.callvalue;
            self.stack.push(w);
            proof {
                assert(machine_of(*self) =~= (Machine { stack: m1.stack.push(w@), ..m1 }));
            }
            None
        } else if op == 0x35 {
            self.do_calldataload()
        } else if op == 0x36 {
            let w: Word = Word::from_u64(self.calldata.len() as u64);
            self.stack.push(w);
            proof {
                assert(machine_of(*self) =~= (Machine { stack: m1.stack.push(w@), ..m1 }));
            }
            None
        } else if op == 0x39 {
            self.do_codecopy()
        } else if op == 0x43 {
            let w: Word = Word::from_u64(self.block_number as u64);
            self.stack.push(w);
            proof {
                assert(machine_of(*self) =~= (Machine { stack: m1.stack.push(w@), ..m1 }));
            }
            None
        } else if op == 0x46 {
            let w: Word = Word::from_u64(0xBEE_EEEF);
            self.stack.push(w);
            proof {
                assert(machine_of(*self) =~= (Machine { stack: m1.stack.push(w@), ..m1 }));
            }
            None
        } else if op == 0x47 {
            let w: Word = self.contract_balance;
            self.stack.push(w);
            proof {
                assert(machine_of(*self) =~= (Machine { stack: m1.stack.push(w@), ..m1 }));
            }
            None
        } else if op == 0x48 {
            let w: Word = Word::from_u64(1);
            self.stack.push(w);
            proof {
                assert(machine_of(*self) =~= (Machine { stack: m1.stack.push(w@), ..m1 }));
            }
            None
        } else if op == 0x50 {
            if self.stack.len() < 1 {
                Some(Err(EvmError::StackUnderflow))
            } else {
                let _ = self.stack.pop();
                proof {
                    assert(machine_of(*self) =~= (Machine { stack: m1.stack.drop_last(), ..m1 }));
                }
                None
            }
        } else if op == 0x51 {
            self.do_mload()
        } else if op == 0x52 {
            self.do_mstore()
        } else if op == 0x53 {
            self.do_mstore8()
        } else if op == 0x54 {
            self.do_sload()
        } else if op == 0x55 {
            self.do_sstore()
        } else if op == 0x56 || op == 0x57 {
            self.do_jump(op)
        } else if op == 0x58 {
            let w: Word = Word::from_u64((self.pc - 1) as u64);
            self.stack.push(w);
            proof {
                assert(machine_of(*self) =~= (Machine { stack: m1.stack.push(w@), ..m1 }));
            }
            None
        } else if op == 0x5b {
            None
        } else if op == 0x5f {
            let w: Word = Word::zero();
            self.stack.push(w);
            proof {
                assert(machine_of(*self) =~= (Machine { stack: m1.stack.push(0nat), ..m1 }));
            }
            None
        } else if 0x60 <= op && op <= 0x7f {
            self.do_pushn(op)
        } else if 0x80 <= op && op <= 0x8f {
            self.do_dup(op)
        } else if 0x90 <= op && op <= 0x9f {
            self.do_swap(op)
        } else if op == 0xf3 || op == 0xfd {
            self.do_exit(op)
        } else if op == 0xfe {
            let mut payload: Vec<u8> = Vec::new();
            payload.push(0xfe);
            proof {
                assert(payload@ =~= seq![0xfeu8]);
            }
            Some(Ok(ExitReason::Revert(payload)))
        } else {
            Some(Err(EvmError::UnknownOpcode(op)))
        };
        match r {
            Some(Err(e)) => {
                // a failing instruction leaves the state as it found it;
                // the handlers mutate nothing on their error paths, so
                // only the advanced counter is taken back
                self.pc = self.pc - 1;
                proof {
                    assert(machine_of(*self) =~= m);
                }
                Some(Err(e))
            },
            other => other,
        }
    }

    /// Runs the fetch-decode-execute loop to a terminal outcome or a
    /// host-level failure. The result, and the state left behind, are
    /// exactly what iterating the step function from the starting state
    /// yields: some number of steps ends in that outcome with this
    /// machine state, storage mutations included. On a host-level
    /// failure the state left behind is the reachable state just before
    /// the failing instruction: that instruction touches neither stack,
    /// memory nor storage. Stack underflow is reported as a structured
    /// error, not a panic, so a caller may treat it like any other
    /// failure of malformed code.
    pub fn run(&mut self) -> (r: Result<ExitReason, EvmError>)
        requires
            old(self).storage.wf(),
        ensures
            final(self).storage.wf(),
            (match r {
                Ok(exit) => exists|n: nat|
                    run_m(machine_of(*old(self)), n) == StepRes::Halt(
                        machine_of(*final(self)),
                        exit_view(&exit),
                    ),
                Err(e) => (exists|n: nat|
                    run_m(machine_of(*old(self)), n) == StepRes::Next(machine_of(*final(self)))
                        && step(machine_of(*final(self))) == StepRes::Fail(e)) || (e
                    == EvmError::StepLimit && run_m(machine_of(*old(self)), STEP_LIMIT as nat)
                    == StepRes::Next(machine_of(*final(self)))),
            }),
    {
        let ghost m0 = machine_of(*self);
        let mut fuel: u64 = STEP_LIMIT;
        let ghost mut k: nat = 0nat;
        loop
            invariant
                self.storage.wf(),
                m0 == machine_of(*old(self)),
                run_m(m0, k) == StepRes::Next(machine_of(*self)),
                k + fuel == STEP_LIMIT,
            decreases fuel,
        {
            if fuel == 0 {
                return Err(EvmError::StepLimit);
            }
            fuel = fuel - 1;
            let ghost pre = machine_of(*self);
            let res: Option<Result<ExitReason, EvmError>> = self.step_exec();
            proof {
                lemma_run_m_snoc(m0, k);
                k = k + 1;
                assert(run_m(m0, k) == step(pre));
            }
            match res {
                None => {
                },
                Some(out) => {
                    proof {
                        assert(run_m(m0, (k - 1) as nat) == StepRes::Next(pre));
                        assert(run_m(m0, k) == step(pre));
                    }
                    return out;
                },
            }
        }
    }
}

} // verus!
