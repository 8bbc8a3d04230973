//! The mathematical model of one interpreter run: a machine state over
//! sequences and maps, a one-instruction step function, and its iteration.
//! The interpreter's contract states that its result is what iterating
//! `step` from the starting state produces.

use vstd::prelude::*;
use vstd::arithmetic::power2::pow2;
use crate::word::{
    add_wrap, and_nat, be_val, mul_wrap, or_nat, p255, p256, pow256, pow_wrap, sint, sub_wrap,
    word_be_bytes, xor_nat,
};
use crate::evm::EvmError;
use crate::keccak::keccak256_of;

verus! {

/// The address the interpreter reports for the executing account.
pub open spec fn contract_address() -> nat {
    0xADDD_ECAF_ADDD_ECAF_ADDD_ECAF_ADDD_ECAFnat
}

/// The fixed transaction origin and caller.
pub open spec fn msg_sender() -> nat {
    0xDEAD_BEEF_DEAD_BEEF_DEAD_BEEF_DEAD_BEEFnat
}

/// The fixed chain identifier.
pub open spec fn chain_id() -> nat {
    0xBEE_EEEFnat
}

/// The fixed base fee.
pub open spec fn base_fee() -> nat {
    1
}

/// The state of one run: program counter, operand stack, linear memory
/// with its 32-byte word count, storage, and the run's immutable context.
#[verifier::ext_equal]
pub ghost struct Machine {
    pub pc: nat,
    pub stack: Seq<nat>,
    pub mem: Seq<u8>,
    pub mem_words: nat,
    pub store: Map<nat, nat>,
    pub code: Seq<u8>,
    pub calldata: Seq<u8>,
    pub callvalue: nat,
    pub balance: nat,
    pub block_number: nat,
    pub halted: bool,
}

/// How a run ends when it ends normally: the three terminal outcomes.
pub ghost enum ExitSpec {
    Stopped,
    Returned(Seq<u8>),
    Reverted(Seq<u8>),
}

/// The outcome of one step: the next state, a terminal outcome together
/// with the state at that moment, or a host-level failure.
pub ghost enum StepRes {
    Next(Machine),
    Halt(Machine, ExitSpec),
    Fail(EvmError),
}

/// Whether a value fits the native address width.
pub open spec fn fits_usize(v: nat) -> bool {
    v <= usize::MAX as nat
}

/// Memory grown to at least `end` bytes, zero-filling the new tail; memory
/// never shrinks.
pub open spec fn grow_mem(mem: Seq<u8>, end: nat) -> Seq<u8> {
    if mem.len() >= end {
        mem
    } else {
        mem + Seq::new((end - mem.len()) as nat, |i: int| 0u8)
    }
}

/// The number of 32-byte words needed to cover `end` bytes.
pub open spec fn words_for(end: nat) -> nat {
    (end + 31) / 32
}

pub open spec fn max_nat(a: nat, b: nat) -> nat {
    if a >= b {
        a
    } else {
        b
    }
}

/// A jump target is legal exactly when it lies in the code and the byte
/// there is the jump-destination marker.
pub open spec fn valid_jumpdest(code: Seq<u8>, dest: nat) -> bool {
    dest < code.len() && code[dest as int] == 0x5b
}

/// The 32 bytes of a buffer starting at `off`, zero-padded past its end.
pub open spec fn read32(buf: Seq<u8>, off: nat) -> Seq<u8> {
    Seq::new(32, |j: int| if off + j < buf.len() { buf[off + j] } else { 0u8 })
}

/// The opcodes that pop two words and push one.
pub open spec fn is_binop(op: u8) -> bool {
    ||| op == 0x01
    ||| op == 0x02
    ||| op == 0x03
    ||| op == 0x04
    ||| op == 0x05
    ||| op == 0x06
    ||| op == 0x0A
    ||| op == 0x10
    ||| op == 0x11
    ||| op == 0x12
    ||| op == 0x13
    ||| op == 0x14
    ||| op == 0x16
    ||| op == 0x17
    ||| op == 0x18
    ||| op == 0x1A
    ||| op == 0x1B
    ||| op == 0x1C
}

/// The magnitude of a word value under the two's-complement reading.
pub open spec fn mag(v: nat) -> nat {
    if v >= p255() {
        (p256() - v) as nat
    } else {
        v
    }
}

/// The two's-complement negation of a word value.
pub open spec fn neg_wrap(v: nat) -> nat {
    if v == 0 {
        0
    } else {
        (p256() - v) as nat
    }
}

/// Signed division: the first-popped word divided by the second, the
/// same direction as the unsigned division, both read as two's
/// complement, truncating toward zero; a zero divisor gives zero.
pub open spec fn sdiv_val(a: nat, b: nat) -> nat {
    if b == 0 {
        0
    } else {
        let q = mag(a) / mag(b);
        if (a >= p255()) == (b >= p255()) {
            q
        } else {
            neg_wrap(q)
        }
    }
}

/// The byte of `x` at index `i`, counting the most significant byte as 0;
/// indices past 31 give zero.
pub open spec fn byte_val(i: nat, x: nat) -> nat {
    if i >= 32 {
        0
    } else {
        (x / pow256((31 - i) as nat)) % 256
    }
}

/// What each two-operand opcode pushes, from the first-popped word `a`
/// and the second-popped word `b`.
pub open spec fn binop_val(op: u8, a: nat, b: nat) -> nat {
    if op == 0x01 {
        add_wrap(a, b)
    } else if op == 0x02 {
        mul_wrap(a, b)
    } else if op == 0x03 {
        sub_wrap(a, b)
    } else if op == 0x04 {
        if b == 0 {
            0
        } else {
            a / b
        }
    } else if op == 0x05 {
        sdiv_val(a, b)
    } else if op == 0x06 {
        if b == 0 {
            0
        } else {
            a % b
        }
    } else if op == 0x0A {
        pow_wrap(a, b)
    } else if op == 0x10 {
        if a < b {
            1
        } else {
            0
        }
    } else if op == 0x11 {
        if a > b {
            1
        } else {
            0
        }
    } else if op == 0x12 {
        if sint(a) < sint(b) {
            1
        } else {
            0
        }
    } else if op == 0x13 {
        if sint(a) > sint(b) {
            1
        } else {
            0
        }
    } else if op == 0x14 {
        if a == b {
            1
        } else {
            0
        }
    } else if op == 0x16 {
        and_nat(a, b)
    } else if op == 0x17 {
        or_nat(a, b)
    } else if op == 0x18 {
        xor_nat(a, b)
    } else if op == 0x1A {
        byte_val(a, b)
    } else if op == 0x1B {
        (b * pow2(a)) % p256()
    } else {
        b / pow2(a)
    }
}

/// A two-operand opcode: pop two, push the operation's result.
pub open spec fn binop_step(m: Machine, op: u8) -> StepRes {
    if m.stack.len() < 2 {
        StepRes::Fail(EvmError::StackUnderflow)
    } else {
        let a = m.stack.last();
        let b = m.stack[m.stack.len() - 2];
        StepRes::Next(
            Machine { stack: m.stack.drop_last().drop_last().push(binop_val(op, a, b)), ..m },
        )
    }
}

/// A one-operand opcode: pop one, push the operation's result.
pub open spec fn unop_step(m: Machine, op: u8) -> StepRes {
    if m.stack.len() < 1 {
        StepRes::Fail(EvmError::StackUnderflow)
    } else {
        let a = m.stack.last();
        let v: nat = if op == 0x15 {
            if a == 0 {
                1
            } else {
                0
            }
        } else {
            (p256() - 1 - a) as nat
        };
        StepRes::Next(Machine { stack: m.stack.drop_last().push(v), ..m })
    }
}

/// The three-operand modular opcodes: addition or multiplication of the
/// first two popped words reduced by the third; a zero modulus gives zero.
/// Both forms reduce the exact, unreduced sum or product.
pub open spec fn modop_step(m: Machine, op: u8) -> StepRes {
    if m.stack.len() < 3 {
        StepRes::Fail(EvmError::StackUnderflow)
    } else {
        let a = m.stack[m.stack.len() - 1];
        let b = m.stack[m.stack.len() - 2];
        let n = m.stack[m.stack.len() - 3];
        let v: nat = if n == 0 {
            0
        } else if op == 0x08 {
            (a + b) % n
        } else {
            (a * b) % n
        };
        StepRes::Next(
            Machine {
                stack: m.stack.drop_last().drop_last().drop_last().push(v),
                ..m
            },
        )
    }
}

/// Pushing a value read from the run context or a fixed constant.
pub open spec fn push_const_step(m: Machine, v: nat) -> StepRes {
    StepRes::Next(Machine { stack: m.stack.push(v), ..m })
}

/// Discarding the top of the stack.
pub open spec fn pop_step(m: Machine) -> StepRes {
    if m.stack.len() < 1 {
        StepRes::Fail(EvmError::StackUnderflow)
    } else {
        StepRes::Next(Machine { stack: m.stack.drop_last(), ..m })
    }
}

/// Hashing a memory range: pop offset and size, grow memory over the
/// range, and push the digest of those bytes read as a big-endian value.
pub open spec fn keccak_step(m: Machine) -> StepRes {
    if m.stack.len() < 2 {
        StepRes::Fail(EvmError::StackUnderflow)
    } else {
        let off = m.stack.last();
        let size = m.stack[m.stack.len() - 2];
        let m2 = Machine { stack: m.stack.drop_last().drop_last(), ..m };
        if !fits_usize(off) || !fits_usize(size) {
            StepRes::Fail(EvmError::OffsetOverflow)
        } else if !fits_usize(off + size) {
            StepRes::Fail(EvmError::MemoryOverflow)
        } else {
            let mem2 = grow_mem(m2.mem, off + size);
            let data = mem2.subrange(off as int, (off + size) as int);
            StepRes::Next(
                Machine { mem: mem2, stack: m2.stack.push(be_val(keccak256_of(data))), ..m2 },
            )
        }
    }
}

/// Reading 32 bytes of call input at an offset, zero-padded past its end.
pub open spec fn calldataload_step(m: Machine) -> StepRes {
    if m.stack.len() < 1 {
        StepRes::Fail(EvmError::StackUnderflow)
    } else {
        let off = m.stack.last();
        let m2 = Machine { stack: m.stack.drop_last(), ..m };
        if !fits_usize(off) {
            StepRes::Fail(EvmError::OffsetOverflow)
        } else {
            StepRes::Next(
                Machine { stack: m2.stack.push(be_val(read32(m.calldata, off))), ..m2 },
            )
        }
    }
}

/// Copying a code range into memory, zero-filling where the range runs
/// past the end of the code.
pub open spec fn codecopy_step(m: Machine) -> StepRes {
    if m.stack.len() < 3 {
        StepRes::Fail(EvmError::StackUnderflow)
    } else {
        let dest = m.stack[m.stack.len() - 1];
        let off = m.stack[m.stack.len() - 2];
        let size = m.stack[m.stack.len() - 3];
        let m2 = Machine { stack: m.stack.drop_last().drop_last().drop_last(), ..m };
        if !fits_usize(dest) || !fits_usize(off) || !fits_usize(size) {
            StepRes::Fail(EvmError::OffsetOverflow)
        } else if !fits_usize(dest + size) {
            StepRes::Fail(EvmError::MemoryOverflow)
        } else {
            let mem2 = grow_mem(m2.mem, dest + size);
            let mem3 = Seq::new(
                mem2.len(),
                |i: int|
                    if dest <= i < dest + size {
                        if off + (i - dest) < m.code.len() {
                            m.code[off + (i - dest)]
                        } else {
                            0u8
                        }
                    } else {
                        mem2[i]
                    },
            );
            StepRes::Next(Machine { mem: mem3, ..m2 })
        }
    }
}

/// Loading the 32-byte memory slot at a byte offset, growing memory to
/// cover it.
pub open spec fn mload_step(m: Machine) -> StepRes {
    if m.stack.len() < 1 {
        StepRes::Fail(EvmError::StackUnderflow)
    } else {
        let off = m.stack.last();
        let m2 = Machine { stack: m.stack.drop_last(), ..m };
        if !fits_usize(off) {
            StepRes::Fail(EvmError::OffsetOverflow)
        } else if !fits_usize(off + 32) {
            StepRes::Fail(EvmError::MemoryOverflow)
        } else {
            let end = off + 32;
            let mem2 = grow_mem(m2.mem, end);
            StepRes::Next(
                Machine {
                    mem: mem2,
                    mem_words: max_nat(m2.mem_words, words_for(end)),
                    stack: m2.stack.push(be_val(mem2.subrange(off as int, end as int))),
                    ..m2
                },
            )
        }
    }
}

/// Storing a word into the 32-byte memory slot at a byte offset.
pub open spec fn mstore_step(m: Machine) -> StepRes {
    if m.stack.len() < 2 {
        StepRes::Fail(EvmError::StackUnderflow)
    } else {
        let off = m.stack.last();
        let val = m.stack[m.stack.len() - 2];
        let m2 = Machine { stack: m.stack.drop_last().drop_last(), ..m };
        if !fits_usize(off) {
            StepRes::Fail(EvmError::OffsetOverflow)
        } else if !fits_usize(off + 32) {
            StepRes::Fail(EvmError::MemoryOverflow)
        } else {
            let end = off + 32;
            let mem2 = grow_mem(m2.mem, end);
            let mem3 = Seq::new(
                mem2.len(),
                |i: int|
                    if off <= i < off + 32 {
                        word_be_bytes(val)[i - off]
                    } else {
                        mem2[i]
                    },
            );
            StepRes::Next(
                Machine { mem: mem3, mem_words: max_nat(m2.mem_words, words_for(end)), ..m2 },
            )
        }
    }
}

/// Storing the low byte of a word at a byte offset.
pub open spec fn mstore8_step(m: Machine) -> StepRes {
    if m.stack.len() < 2 {
        StepRes::Fail(EvmError::StackUnderflow)
    } else {
        let off = m.stack.last();
        let val = m.stack[m.stack.len() - 2];
        let m2 = Machine { stack: m.stack.drop_last().drop_last(), ..m };
        if !fits_usize(off) {
            StepRes::Fail(EvmError::OffsetOverflow)
        } else if !fits_usize(off + 1) {
            StepRes::Fail(EvmError::MemoryOverflow)
        } else {
            let end = off + 1;
            let mem2 = grow_mem(m2.mem, end);
            let mem3 = mem2.update(off as int, (val % 256) as u8);
            StepRes::Next(
                Machine { mem: mem3, mem_words: max_nat(m2.mem_words, words_for(end)), ..m2 },
            )
        }
    }
}

/// Reading storage: absent keys read as zero.
pub open spec fn sload_step(m: Machine) -> StepRes {
    if m.stack.len() < 1 {
        StepRes::Fail(EvmError::StackUnderflow)
    } else {
        let k = m.stack.last();
        let m2 = Machine { stack: m.stack.drop_last(), ..m };
        let v: nat = if m.store.contains_key(k) {
            m.store[k]
        } else {
            0
        };
        StepRes::Next(Machine { stack: m2.stack.push(v), ..m2 })
    }
}

/// Writing storage: the zero word removes the key, any other value
/// upserts it.
pub open spec fn sstore_step(m: Machine) -> StepRes {
    if m.stack.len() < 2 {
        StepRes::Fail(EvmError::StackUnderflow)
    } else {
        let k = m.stack.last();
        let v = m.stack[m.stack.len() - 2];
        let store2 = if v == 0 {
            m.store.remove(k)
        } else {
            m.store.insert(k, v)
        };
        StepRes::Next(Machine { stack: m.stack.drop_last().drop_last(), store: store2, ..m })
    }
}

/// Unconditional and conditional jumps. A target outside the code, or
/// one whose byte is not the jump-destination marker, reverts with a
/// one-byte payload naming the jump opcode; it never fails the run.
pub open spec fn jump_step(m: Machine, op: u8) -> StepRes {
    if op == 0x56 {
        if m.stack.len() < 1 {
            StepRes::Fail(EvmError::StackUnderflow)
        } else {
            let dest = m.stack.last();
            let m2 = Machine { stack: m.stack.drop_last(), ..m };
            if valid_jumpdest(m.code, dest) {
                StepRes::Next(Machine { pc: dest, ..m2 })
            } else {
                StepRes::Halt(m2, ExitSpec::Reverted(seq![0x56u8]))
            }
        }
    } else {
        if m.stack.len() < 2 {
            StepRes::Fail(EvmError::StackUnderflow)
        } else {
            let dest = m.stack.last();
            let cond = m.stack[m.stack.len() - 2];
            let m2 = Machine { stack: m.stack.drop_last().drop_last(), ..m };
            if cond == 0 {
                StepRes::Next(m2)
            } else if valid_jumpdest(m.code, dest) {
                StepRes::Next(Machine { pc: dest, ..m2 })
            } else {
                StepRes::Halt(m2, ExitSpec::Reverted(seq![0x57u8]))
            }
        }
    }
}

/// An immediate push: the next `n` code bytes, read big-endian; running
/// out of code here fails the run.
pub open spec fn pushn_step(m: Machine, n: nat) -> StepRes {
    if m.pc + n > m.code.len() {
        StepRes::Fail(EvmError::TruncatedPush)
    } else {
        let v = be_val(m.code.subrange(m.pc as int, (m.pc + n) as int));
        StepRes::Next(Machine { pc: m.pc + n, stack: m.stack.push(v), ..m })
    }
}

/// Duplicating the n-th word from the top of the stack.
pub open spec fn dup_step(m: Machine, n: nat) -> StepRes {
    if m.stack.len() < n {
        StepRes::Fail(EvmError::StackUnderflow)
    } else {
        StepRes::Next(Machine { stack: m.stack.push(m.stack[m.stack.len() - n]), ..m })
    }
}

/// Swapping the top of the stack with the word n below it.
pub open spec fn swap_step(m: Machine, n: nat) -> StepRes {
    if m.stack.len() <= n {
        StepRes::Fail(EvmError::StackUnderflow)
    } else {
        let len = m.stack.len();
        let top = m.stack[len - 1];
        let other = m.stack[len - 1 - n];
        StepRes::Next(
            Machine {
                stack: m.stack.update(len - 1, other).update(len - 1 - n, top),
                ..m
            },
        )
    }
}

/// Normal or reverting termination with data: pop offset and size, grow
/// memory over the range, and carry that memory slice out.
pub open spec fn exit_step(m: Machine, op: u8) -> StepRes {
    if m.stack.len() < 2 {
        StepRes::Fail(EvmError::StackUnderflow)
    } else {
        let off = m.stack.last();
        let size = m.stack[m.stack.len() - 2];
        let m2 = Machine { stack: m.stack.drop_last().drop_last(), ..m };
        if !fits_usize(off) || !fits_usize(size) {
            StepRes::Fail(EvmError::OffsetOverflow)
        } else if !fits_usize(off + size) {
            StepRes::Fail(EvmError::MemoryOverflow)
        } else {
            let mem2 = grow_mem(m2.mem, off + size);
            let data = mem2.subrange(off as int, (off + size) as int);
            let m3 = Machine { mem: mem2, ..m2 };
            if op == 0xf3 {
                StepRes::Halt(m3, ExitSpec::Returned(data))
            } else {
                StepRes::Halt(m3, ExitSpec::Reverted(data))
            }
        }
    }
}

/// One fetch-decode-execute step. A halted machine, or one whose program
/// counter has run off the end of the code, stops; otherwise the byte at
/// the counter is decoded and executed with the counter advanced past it.
pub open spec fn step(m: Machine) -> StepRes {
    if m.halted {
        StepRes::Halt(m, ExitSpec::Stopped)
    } else if m.pc >= m.code.len() {
        StepRes::Halt(m, ExitSpec::Stopped)
    } else {
        let op = m.code[m.pc as int];
        let m1 = Machine { pc: (m.pc + 1) as nat, ..m };
        if op == 0x00 {
            StepRes::Halt(m1, ExitSpec::Stopped)
        } else if is_binop(op) {
            binop_step(m1, op)
        } else if op == 0x15 || op == 0x19 {
            unop_step(m1, op)
        } else if op == 0x08 || op == 0x09 {
            modop_step(m1, op)
        } else if op == 0x20 {
            keccak_step(m1)
        } else if op == 0x30 {
            push_const_step(m1, contract_address())
        } else if op == 0x32 || op == 0x33 {
            push_const_step(m1, msg_sender())
        } else if op == 0x34 {
            push_const_step(m1, m.callvalue)
        } else if op == 0x35 {
            calldataload_step(m1)
        } else if op == 0x36 {
            push_const_step(m1, m.calldata.len())
        } else if op == 0x39 {
            codecopy_step(m1)
        } else if op == 0x43 {
            push_const_step(m1, m.block_number)
        } else if op == 0x46 {
            push_const_step(m1, chain_id())
        } else if op == 0x47 {
            push_const_step(m1, m.balance)
        } else if op == 0x48 {
            push_const_step(m1, base_fee())
        } else if op == 0x50 {
            pop_step(m1)
        } else if op == 0x51 {
            mload_step(m1)
        } else if op == 0x52 {
            mstore_step(m1)
        } else if op == 0x53 {
            mstore8_step(m1)
        } else if op == 0x54 {
            sload_step(m1)
        } else if op == 0x55 {
            sstore_step(m1)
        } else if op == 0x56 || op == 0x57 {
            jump_step(m1, op)
        } else if op == 0x58 {
            push_const_step(m1, m.pc)
        } else if op == 0x5b {
            StepRes::Next(m1)
        } else if op == 0x5f {
            push_const_step(m1, 0)
        } else if 0x60 <= op && op <= 0x7f {
            pushn_step(m1, (op - 0x5f) as nat)
        } else if 0x80 <= op && op <= 0x8f {
            dup_step(m1, (op - 0x7f) as nat)
        } else if 0x90 <= op && op <= 0x9f {
            swap_step(m1, (op - 0x8f) as nat)
        } else if op == 0xf3 || op == 0xfd {
            exit_step(m1, op)
        } else if op == 0xfe {
            StepRes::Halt(m1, ExitSpec::Reverted(seq![0xfeu8]))
        } else {
            StepRes::Fail(EvmError::UnknownOpcode(op))
        }
    }
}

/// `n` steps from `m`: the state after them while the machine keeps
/// running, or the first terminal or failing outcome reached.
pub open spec fn run_m(m: Machine, n: nat) -> StepRes
    decreases n,
{
    if n == 0 {
        StepRes::Next(m)
    } else {
        match step(m) {
            StepRes::Next(m2) => run_m(m2, (n - 1) as nat),
            r => r,
        }
    }
}

/// A terminal outcome or failure is stable: once some number of steps
/// reaches it, every larger number of steps reaches the same one. The
/// outcome a run reports is therefore the only one its program has.
pub proof fn lemma_run_m_stable(m: Machine, n: nat, n2: nat)
    requires
        n <= n2,
        !(run_m(m, n) is Next),
    ensures
        run_m(m, n2) == run_m(m, n),
    decreases n2,
{
    if n > 0 {
        match step(m) {
            StepRes::Next(m2) => {
                lemma_run_m_stable(m2, (n - 1) as nat, (n2 - 1) as nat);
            },
            _ => {},
        }
    }
}

/// Iteration unrolls at the back as well as at the front.
pub proof fn lemma_run_m_snoc(m: Machine, n: nat)
    ensures
        run_m(m, n + 1) == (match run_m(m, n) {
            StepRes::Next(m2) => step(m2),
            r => r,
        }),
    decreases n,
{
    if n == 0 {
        match step(m) {
            StepRes::Next(m2) => {
                assert(run_m(m2, 0) == StepRes::Next(m2));
            },
            _ => {},
        }
    } else {
        match step(m) {
            StepRes::Next(m2) => {
                lemma_run_m_snoc(m2, (n - 1) as nat);
                assert(run_m(m, n + 1) == run_m(m2, n));
                assert(run_m(m, n) == run_m(m2, (n - 1) as nat));
            },
            _ => {},
        }
    }
}

} // verus!
