//! Laws of the instruction set that hold for every input, proved once
//! and for all against the machine's step specification.

use vstd::prelude::*;
use vstd::arithmetic::div_mod::{
    lemma_fundamental_div_mod, lemma_mod_multiples_vanish, lemma_small_mod,
};
use crate::word::{
    add_wrap, be_val, lemma_be_val_le_digits, lemma_le_digits_len, lemma_pow256_32, p256, pow256,
    sub_wrap, word_be_bytes,
};
use crate::machine::{
    binop_val, byte_val, exit_step, fits_usize, grow_mem, jump_step, modop_step, run_m,
    sstore_step, step, valid_jumpdest, ExitSpec, Machine, StepRes,
};
use crate::evm::EvmError;

verus! {

/// Reading a word's 32-byte big-endian image back as a value recovers
/// the word: the byte codec round-trips.
pub proof fn lemma_word_bytes_roundtrip(v: nat)
    requires
        v < p256(),
    ensures
        be_val(word_be_bytes(v)) == v,
        word_be_bytes(v).len() == 32,
{
    lemma_be_val_le_digits(v, 32);
    lemma_pow256_32();
    lemma_small_mod(v, pow256(32));
    lemma_le_digits_len(v, 32);
}

/// Adding a word and then subtracting it again returns the first
/// operand exactly, wraparound included: subtraction is the inverse of
/// addition modulo 2^256.
pub proof fn lemma_add_sub_inverse(a: nat, b: nat)
    requires
        a < p256(),
        b < p256(),
    ensures
        sub_wrap(add_wrap(a, b), b) == a,
{
    let p: int = p256() as int;
    lemma_fundamental_div_mod((a + b) as int, p);
    let q: int = (a + b) as int / p;
    let s: int = add_wrap(a, b) as int;
    assert(s == a + b - q * p);
    assert(s + p - b == a + (1 - q) * p) by (nonlinear_arith)
        requires
            s == a + b - q * p,
    ;
    lemma_mod_multiples_vanish(1 - q, a as int, p);
    lemma_small_mod(a, p256());
}

/// Division and remainder by the zero word, unsigned or signed, give
/// the zero word; they are never an error. For all three the divisor is
/// the second-popped word.
pub proof fn lemma_div_by_zero(a: nat)
    ensures
        binop_val(0x04, a, 0) == 0,
        binop_val(0x06, a, 0) == 0,
        binop_val(0x05, a, 0) == 0,
{
}

/// The modular opcodes with a zero modulus give the zero word; with any
/// other modulus they reduce the exact, unreduced sum or product.
pub proof fn lemma_modop_zero_modulus(m: Machine, op: u8)
    requires
        op == 0x08 || op == 0x09,
        m.stack.len() >= 3,
        m.stack[m.stack.len() - 3] == 0,
    ensures
        modop_step(m, op) == StepRes::Next(
            Machine { stack: m.stack.drop_last().drop_last().drop_last().push(0), ..m },
        ),
{
}

/// Extracting a byte at an index of 32 or more gives the zero word,
/// whatever the value.
pub proof fn lemma_byte_out_of_range(i: nat, x: nat)
    requires
        i >= 32,
    ensures
        byte_val(i, x) == 0,
{
}

/// A jump to any target that is out of the code's bounds, or whose byte
/// is not the jump-destination marker, ends the run in a revert whose
/// payload names the jump opcode; it is never a host-level failure.
pub proof fn lemma_bad_jump_reverts(m: Machine, op: u8)
    requires
        op == 0x56 || op == 0x57,
        m.stack.len() >= 2,
        !valid_jumpdest(m.code, m.stack.last()),
        op == 0x57 ==> m.stack[m.stack.len() - 2] != 0,
    ensures
        jump_step(m, op) matches StepRes::Halt(m2, e) && e == ExitSpec::Reverted(seq![op]),
{
}

/// Storing a value and loading its key back gives that value exactly:
/// the zero word removes the key, so it reads back as zero, and any
/// other word reads back as itself.
pub proof fn lemma_sstore_then_sload(m: Machine, k: nat, v: nat)
    requires
        m.stack.len() >= 2,
        m.stack[m.stack.len() - 1] == k,
        m.stack[m.stack.len() - 2] == v,
    ensures
        ({
            let store2 = if v == 0 {
                m.store.remove(k)
            } else {
                m.store.insert(k, v)
            };
            let loaded = if store2.contains_key(k) {
                store2[k]
            } else {
                0
            };
            sstore_step(m) == StepRes::Next(
                Machine { stack: m.stack.drop_last().drop_last(), store: store2, ..m },
            ) && loaded == v
        }),
{
}

/// Growing memory only appends zero bytes: a read past every written
/// region but within the grown bounds gives zero, and memory never
/// shrinks.
pub proof fn lemma_grow_mem_zeros(mem: Seq<u8>, end: nat)
    ensures
        grow_mem(mem, end).len() >= mem.len(),
        grow_mem(mem, end).len() >= end,
        forall|i: int| 0 <= i < mem.len() ==> grow_mem(mem, end)[i] == mem[i],
        forall|i: int| mem.len() <= i < grow_mem(mem, end).len() ==> grow_mem(mem, end)[i] == 0u8,
{
}

/// No step of the machine shrinks memory: whatever instruction runs
/// next, the memory it leaves holds at least as many bytes.
pub proof fn lemma_step_never_shrinks_memory(m: Machine)
    ensures
        (match step(m) {
            StepRes::Next(m2) => m2.mem.len() >= m.mem.len(),
            StepRes::Halt(m2, e) => m2.mem.len() >= m.mem.len(),
            StepRes::Fail(e) => true,
        }),
{
    if !m.halted && m.pc < m.code.len() {
        let op = m.code[m.pc as int];
        let m1 = Machine { pc: (m.pc + 1) as nat, ..m };
        if op == 0x20 && m1.stack.len() >= 2 {
            lemma_grow_mem_zeros(m1.mem, m1.stack.last() + m1.stack[m1.stack.len() - 2]);
        }
        if op == 0x39 && m1.stack.len() >= 3 {
            lemma_grow_mem_zeros(
                m1.mem,
                m1.stack[m1.stack.len() - 1] + m1.stack[m1.stack.len() - 3],
            );
        }
        if (op == 0x51 || op == 0x52) && m1.stack.len() >= 1 {
            lemma_grow_mem_zeros(m1.mem, m1.stack.last() + 32);
        }
        if op == 0x53 && m1.stack.len() >= 2 {
            lemma_grow_mem_zeros(m1.mem, m1.stack.last() + 1);
        }
        if (op == 0xf3 || op == 0xfd) && m1.stack.len() >= 2 {
            lemma_grow_mem_zeros(m1.mem, m1.stack.last() + m1.stack[m1.stack.len() - 2]);
        }
    }
}

/// No run shrinks memory: however many steps execute, the memory they
/// leave holds at least as many bytes as the starting state's.
pub proof fn lemma_run_never_shrinks_memory(m: Machine, n: nat)
    ensures
        (match run_m(m, n) {
            StepRes::Next(m2) => m2.mem.len() >= m.mem.len(),
            StepRes::Halt(m2, e) => m2.mem.len() >= m.mem.len(),
            StepRes::Fail(e) => true,
        }),
    decreases n,
{
    if n > 0 {
        lemma_step_never_shrinks_memory(m);
        match step(m) {
            StepRes::Next(m2) => {
                lemma_run_never_shrinks_memory(m2, (n - 1) as nat);
            },
            _ => {},
        }
    }
}

/// A return or revert whose offset plus size overflows the native
/// address width fails with the memory-overflow error: it neither wraps
/// around nor reads out of bounds.
pub proof fn lemma_exit_overflow_fails(m: Machine, op: u8)
    requires
        op == 0xf3 || op == 0xfd,
        m.stack.len() >= 2,
        fits_usize(m.stack.last()),
        fits_usize(m.stack[m.stack.len() - 2]),
        !fits_usize(m.stack.last() + m.stack[m.stack.len() - 2]),
    ensures
        exit_step(m, op) == StepRes::Fail(EvmError::MemoryOverflow),
{
}

} // verus!
