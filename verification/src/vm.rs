//! The dispatch loop and its small-step semantics.
//!
//! [`step`] is the specification of one instruction: it maps a machine state
//! to the next state, or to the fault that aborts the run.  [`steps`] iterates
//! it.  The executable [`step_instr`] and [`run`] are proved to follow them
//! exactly: whatever `run` returns is the result of some number of
//! specification steps from the initial state.

use vstd::prelude::*;

use crate::machine::{out_view, BinOp, Fault, Machine, MEM_SIZE};
use crate::text::{dec_rep, is_codepoint, push_char};

verus! {

/// Opcode bytes, by ASCII value.
pub const OP_ZERO: u8 = 48;  // '0'
pub const OP_NINE: u8 = 57;  // '9'
pub const OP_PRINT_INT: u8 = 112;  // 'p'
pub const OP_PRINT_CHAR: u8 = 80;  // 'P'
pub const OP_ADD: u8 = 43;  // '+'
pub const OP_SUB: u8 = 45;  // '-'
pub const OP_MUL: u8 = 42;  // '*'
pub const OP_DIV: u8 = 47;  // '/'
pub const OP_CMP: u8 = 58;  // ':'
pub const OP_JUMP: u8 = 103;  // 'g'
pub const OP_JUMP_IF: u8 = 63;  // '?'
pub const OP_CALL: u8 = 99;  // 'c'
pub const OP_RET: u8 = 36;  // '$'
pub const OP_LOAD: u8 = 60;  // '<'
pub const OP_STORE: u8 = 62;  // '>'
pub const OP_COPY: u8 = 94;  // '^'
pub const OP_REMOVE: u8 = 118;  // 'v'
pub const OP_DROP: u8 = 100;  // 'd'
pub const OP_HALT: u8 = 33;  // '!'

/// A machine state of the semantics: instruction pointer, halt flag, and the
/// contents of the operand stack, call stack, memory and output buffer.
pub struct VmState {
    pub ip: int,
    pub halted: bool,
    pub stack: Seq<i32>,
    pub calls: Seq<i32>,
    pub mem: Seq<i32>,
    pub out: Seq<Seq<char>>,
}

/// The state a `Machine` denotes at a given instruction pointer and halt flag.
pub open spec fn vm_of(m: Machine, ip: int, halted: bool) -> VmState {
    VmState {
        ip,
        halted,
        stack: m.stack@,
        calls: m.call_stack@,
        mem: m.mem@,
        out: out_view(m),
    }
}

/// The initial state: instruction pointer 0, not halted.
pub open spec fn init_vm(m: Machine) -> VmState {
    vm_of(m, 0, false)
}

/// Execution stops here: an explicit halt, or the instruction pointer out of
/// the program.  Both are clean terminations, not faults.
pub open spec fn terminal(prog: Seq<u8>, s: VmState) -> bool {
    s.halted || s.ip < 0 || s.ip >= prog.len()
}

/// Whether the byte is a digit opcode `'0'`..`'9'`.
pub open spec fn is_digit_op(op: u8) -> bool {
    OP_ZERO <= op <= OP_NINE
}

/// The binary operation of an arithmetic or comparison opcode, if it is one.
pub open spec fn bin_of(op: u8) -> Option<BinOp> {
    if op == OP_ADD {
        Some(BinOp::Add)
    } else if op == OP_SUB {
        Some(BinOp::Sub)
    } else if op == OP_MUL {
        Some(BinOp::Mul)
    } else if op == OP_DIV {
        Some(BinOp::Div)
    } else if op == OP_CMP {
        Some(BinOp::Cmp)
    } else {
        None
    }
}

/// The recognized opcode alphabet.
pub open spec fn known_op(op: u8) -> bool {
    is_digit_op(op) || bin_of(op) is Some || op == OP_PRINT_INT || op == OP_PRINT_CHAR || op == OP_JUMP || op
        == OP_JUMP_IF || op == OP_CALL || op == OP_RET || op == OP_LOAD || op == OP_STORE || op == OP_COPY || op
        == OP_REMOVE || op == OP_DROP || op == OP_HALT
}

/// One step of execution.  On a terminal state the step stutters; otherwise
/// it executes the opcode at the instruction pointer.  An opcode that sets
/// the instruction pointer (`'g'`, `'?'` when taken, `'c'`, `'$'`) replaces
/// it outright; every other opcode advances it by one.
pub open spec fn step(prog: Seq<u8>, s: VmState) -> Result<VmState, Fault>
    recommends
        prog.len() <= i32::MAX,
{
    if terminal(prog, s) {
        Ok(s)
    } else {
        let op = prog[s.ip];
        let st = s.stack;
        if is_digit_op(op) {
            Ok(VmState { ip: s.ip + 1, stack: st.push((op - OP_ZERO) as i32), ..s })
        } else if op == OP_PRINT_INT || op == OP_PRINT_CHAR {
            if st.len() == 0 {
                Err(Fault::StackUnderflow)
            } else if op == OP_PRINT_CHAR && !is_codepoint(st.last()) {
                Err(Fault::InvalidCodepoint)
            } else {
                Ok(
                    VmState {
                        ip: s.ip + 1,
                        stack: st.drop_last(),
                        out: s.out.push(
                            if op == OP_PRINT_INT {
                                dec_rep(st.last() as int)
                            } else {
                                seq![(st.last() as u32) as char]
                            },
                        ),
                        ..s
                    },
                )
            }
        } else if bin_of(op) is Some {
            let bop = bin_of(op).unwrap();
            if st.len() < 2 {
                Err(Fault::StackUnderflow)
            } else if bop == BinOp::Div && st.last() == 0i32 {
                Err(Fault::DivideByZero)
            } else {
                Ok(
                    VmState {
                        ip: s.ip + 1,
                        stack: st.drop_last().drop_last().push(
                            crate::machine::word_op(bop, st[st.len() - 2], st.last()),
                        ),
                        ..s
                    },
                )
            }
        } else if op == OP_JUMP {
            if st.len() == 0 {
                Err(Fault::StackUnderflow)
            } else {
                Ok(VmState { ip: s.ip + st.last() as int, stack: st.drop_last(), ..s })
            }
        } else if op == OP_JUMP_IF {
            if st.len() < 2 {
                Err(Fault::StackUnderflow)
            } else {
                Ok(
                    VmState {
                        ip: if st[st.len() - 2] == 0i32 {
                            s.ip + st.last() as int
                        } else {
                            s.ip + 1
                        },
                        stack: st.drop_last().drop_last(),
                        ..s
                    },
                )
            }
        } else if op == OP_CALL {
            if st.len() == 0 {
                Err(Fault::StackUnderflow)
            } else {
                Ok(
                    VmState {
                        ip: st.last() as int,
                        stack: st.drop_last(),
                        calls: s.calls.push((s.ip + 1) as i32),
                        ..s
                    },
                )
            }
        } else if op == OP_RET {
            if s.calls.len() == 0 {
                Err(Fault::CallStackUnderflow)
            } else {
                Ok(VmState { ip: s.calls.last() as int, calls: s.calls.drop_last(), ..s })
            }
        } else if op == OP_LOAD {
            if st.len() == 0 {
                Err(Fault::StackUnderflow)
            } else if !(0 <= st.last() < MEM_SIZE) {
                Err(Fault::OutOfRange)
            } else {
                Ok(
                    VmState {
                        ip: s.ip + 1,
                        stack: st.drop_last().push(s.mem[st.last() as int]),
                        ..s
                    },
                )
            }
        } else if op == OP_STORE {
            if st.len() < 2 {
                Err(Fault::StackUnderflow)
            } else if !(0 <= st.last() < MEM_SIZE) {
                Err(Fault::OutOfRange)
            } else {
                Ok(
                    VmState {
                        ip: s.ip + 1,
                        stack: st.drop_last().drop_last(),
                        mem: s.mem.update(st.last() as int, st[st.len() - 2]),
                        ..s
                    },
                )
            }
        } else if op == OP_COPY {
            if st.len() == 0 {
                Err(Fault::StackUnderflow)
            } else {
                let d = st.last();
                let rest = st.drop_last();
                if d < 0 || d >= rest.len() {
                    Err(Fault::StackUnderflow)
                } else {
                    Ok(
                        VmState {
                            ip: s.ip + 1,
                            stack: rest.push(rest[rest.len() - 1 - d]),
                            ..s
                        },
                    )
                }
            }
        } else if op == OP_REMOVE {
            if st.len() == 0 {
                Err(Fault::StackUnderflow)
            } else {
                let d = st.last();
                let rest = st.drop_last();
                if d < 0 || d >= rest.len() {
                    Err(Fault::StackUnderflow)
                } else {
                    Ok(
                        VmState {
                            ip: s.ip + 1,
                            stack: rest.remove(rest.len() - 1 - d).push(
                                rest[rest.len() - 1 - d],
                            ),
                            ..s
                        },
                    )
                }
            }
        } else if op == OP_DROP {
            if st.len() == 0 {
                Err(Fault::StackUnderflow)
            } else {
                Ok(VmState { ip: s.ip + 1, stack: st.drop_last(), ..s })
            }
        } else if op == OP_HALT {
            Ok(VmState { ip: s.ip + 1, halted: true, ..s })
        } else {
            Err(Fault::IllegalOpcode)
        }
    }
}

/// `n` steps of execution from `s`; a fault, once reached, is final, and a
/// terminal state stutters.
pub open spec fn steps(prog: Seq<u8>, s: VmState, n: nat) -> Result<VmState, Fault>
    decreases n,
{
    if n == 0 {
        Ok(s)
    } else {
        match step(prog, s) {
            Ok(s2) => steps(prog, s2, (n - 1) as nat),
            Err(f) => Err(f),
        }
    }
}

/// Unrolling `steps` at the back: `n + 1` steps are `n` steps followed by one.
pub proof fn lemma_steps_snoc(prog: Seq<u8>, s: VmState, n: nat)
    ensures
        steps(prog, s, n + 1) == (match steps(prog, s, n) {
            Ok(s2) => step(prog, s2),
            Err(f) => Err(f),
        }),
    decreases n,
{
    if n == 0 {
        match step(prog, s) {
            Ok(s2) => {
                assert(steps(prog, s, 1) == steps(prog, s2, 0));
            },
            Err(f) => {
                assert(steps(prog, s, 1) == Err::<VmState, Fault>(f));
            },
        }
    } else {
        match step(prog, s) {
            Ok(s2) => {
                lemma_steps_snoc(prog, s2, (n - 1) as nat);
                assert(steps(prog, s, n + 1) == steps(prog, s2, n));
                assert(steps(prog, s, n) == steps(prog, s2, (n - 1) as nat));
            },
            Err(_) => {},
        }
    }
}

/// Execute the single instruction at `ip`, returning the next instruction
/// pointer and halt flag, or the fault.  Exactly one specification step.
#[verifier::rlimit(100)]
pub fn step_instr(prog: &Vec<u8>, m: &mut Machine, ip: i64, halted: bool) -> (r: Result<
    (i64, bool),
    Fault,
>)
    requires
        old(m).wf(),
        prog@.len() <= i32::MAX,
        !halted,
        0 <= ip < prog@.len(),
    ensures
        final(m).wf(),
        match r {
            Ok(next) => step(prog@, vm_of(*old(m), ip as int, halted)) == Ok::<
                VmState,
                Fault,
            >(vm_of(*final(m), next.0 as int, next.1)),
            Err(f) => step(prog@, vm_of(*old(m), ip as int, halted)) == Err::<
                VmState,
                Fault,
            >(f),
        },
{
    let op = prog[ip as usize];
    if op >= OP_ZERO && op <= OP_NINE {
        m.stack_push((op - OP_ZERO) as i32);
        Ok((ip + 1, false))
    } else if op == OP_PRINT_INT {
        match m.add_stdout(true) {
            Ok(()) => Ok((ip + 1, false)),
            Err(f) => Err(f),
        }
    } else if op == OP_PRINT_CHAR {
        match m.add_stdout(false) {
            Ok(()) => Ok((ip + 1, false)),
            Err(f) => Err(f),
        }
    } else if op == OP_ADD || op == OP_SUB || op == OP_MUL || op == OP_DIV || op == OP_CMP {
        let bop = if op == OP_ADD {
            BinOp::Add
        } else if op == OP_SUB {
            BinOp::Sub
        } else if op == OP_MUL {
            BinOp::Mul
        } else if op == OP_DIV {
            BinOp::Div
        } else {
            BinOp::Cmp
        };
        match m.do_op(bop) {
            Ok(()) => Ok((ip + 1, false)),
            Err(f) => Err(f),
        }
    } else if op == OP_JUMP {
        match m.stack_pop() {
            Ok(off) => Ok((ip + off as i64, false)),
            Err(f) => Err(f),
        }
    } else if op == OP_JUMP_IF {
        match m.cond_jump() {
            Ok(Some(off)) => Ok((ip + off as i64, false)),
            Ok(None) => Ok((ip + 1, false)),
            Err(f) => Err(f),
        }
    } else if op == OP_CALL {
        match m.stack_pop() {
            Ok(target) => {
                m.call_stack_push((ip + 1) as i32);
                Ok((target as i64, false))
            },
            Err(f) => Err(f),
        }
    } else if op == OP_RET {
        match m.call_stack_pop() {
            Ok(ret) => Ok((ret as i64, false)),
            Err(f) => Err(f),
        }
    } else if op == OP_LOAD {
        match m.load_mem() {
            Ok(()) => Ok((ip + 1, false)),
            Err(f) => Err(f),
        }
    } else if op == OP_STORE {
        match m.store_mem() {
            Ok(()) => Ok((ip + 1, false)),
            Err(f) => Err(f),
        }
    } else if op == OP_COPY {
        match m.copy_stack() {
            Ok(()) => Ok((ip + 1, false)),
            Err(f) => Err(f),
        }
    } else if op == OP_REMOVE {
        match m.remove_stack() {
            Ok(()) => Ok((ip + 1, false)),
            Err(f) => Err(f),
        }
    } else if op == OP_DROP {
        match m.stack_pop() {
            Ok(_dropped) => Ok((ip + 1, false)),
            Err(f) => Err(f),
        }
    } else if op == OP_HALT {
        Ok((ip + 1, true))
    } else {
        Err(Fault::IllegalOpcode)
    }
}

/// Run the program from the given instruction pointer and halt flag,
/// executing at most `fuel` instructions.
///
/// `Ok(None)`: a terminal state was reached — the program halted or the
/// instruction pointer left the program — by some number of specification
/// steps.  `Ok(Some((ip, halted)))`: `fuel` instructions were executed and
/// the program is still running; a later call with these values resumes it.
/// `Err(f)`: some number of steps reaches exactly that fault; the machine
/// holds whatever the faulting instruction left, and its output is not to be
/// emitted.
pub fn run(prog: &Vec<u8>, m: &mut Machine, ip0: i64, halted0: bool, fuel: u64) -> (r:
    Result<Option<(i64, bool)>, Fault>)
    requires
        old(m).wf(),
        prog@.len() <= i32::MAX,
    ensures
        final(m).wf(),
        match r {
            Ok(next) => match next {
                None => exists|n: nat, ip: int, halted: bool|
                    n <= fuel && steps(prog@, vm_of(*old(m), ip0 as int, halted0), n)
                        == Ok::<VmState, Fault>(vm_of(*final(m), ip, halted)) && terminal(
                        prog@,
                        vm_of(*final(m), ip, halted),
                    ),
                Some(cur) => steps(prog@, vm_of(*old(m), ip0 as int, halted0), fuel as nat)
                    == Ok::<VmState, Fault>(vm_of(*final(m), cur.0 as int, cur.1))
                    && !terminal(prog@, vm_of(*final(m), cur.0 as int, cur.1)),
            },
            Err(f) => exists|n: nat|
                n <= fuel && steps(prog@, vm_of(*old(m), ip0 as int, halted0), n) == Err::<
                    VmState,
                    Fault,
                >(f),
        },
{
    let ghost start = vm_of(*old(m), ip0 as int, halted0);
    let mut ip: i64 = ip0;
    let mut halted = halted0;
    let mut steps_left: u64 = fuel;
    loop
        invariant
            m.wf(),
            prog@.len() <= i32::MAX,
            steps_left <= fuel,
            start == vm_of(*old(m), ip0 as int, halted0),
            steps(prog@, start, (fuel - steps_left) as nat) == Ok::<VmState, Fault>(
                vm_of(*m, ip as int, halted),
            ),
        ensures
            m.wf(),
            steps_left <= fuel,
            steps(prog@, start, (fuel - steps_left) as nat) == Ok::<VmState, Fault>(
                vm_of(*m, ip as int, halted),
            ),
            terminal(prog@, vm_of(*m, ip as int, halted)) || steps_left == 0,
        decreases steps_left,
    {
        if halted || ip < 0 || ip >= prog.len() as i64 {
            break;
        }
        if steps_left == 0 {
            break;
        }
        let ghost n: nat = (fuel - steps_left) as nat;
        let res = step_instr(prog, m, ip, halted);
        proof {
            lemma_steps_snoc(prog@, start, n);
        }
        steps_left = steps_left - 1;
        match res {
            Ok(next) => {
                ip = next.0;
                halted = next.1;
            },
            Err(f) => {
                proof {
                    assert(steps(prog@, start, n + 1) == Err::<VmState, Fault>(f));
                    assert(exists|n2: nat|
                        n2 <= fuel && steps(
                            prog@,
                            vm_of(*old(m), ip0 as int, halted0),
                            n2,
                        ) == Err::<VmState, Fault>(f)) by {
                        assert(steps(prog@, vm_of(*old(m), ip0 as int, halted0), n + 1)
                            == Err::<VmState, Fault>(f));
                    }
                }
                return Err(f);
            },
        }
    }
    if halted || ip < 0 || ip >= prog.len() as i64 {
        proof {
            let n: nat = (fuel - steps_left) as nat;
            assert(n <= fuel && steps(prog@, start, n) == Ok::<VmState, Fault>(
                vm_of(*m, ip as int, halted),
            ) && terminal(prog@, vm_of(*m, ip as int, halted)));
        }
        Ok(None)
    } else {
        Ok(Some((ip, halted)))
    }
}

/// The text a clean run emits: the output fragments concatenated, in order.
pub open spec fn concat_frags(out: Seq<Seq<char>>) -> Seq<char>
    decreases out.len(),
{
    if out.len() == 0 {
        Seq::empty()
    } else {
        concat_frags(out.drop_last()) + out.last()
    }
}

/// The emitted text of a machine's output buffer, with the single trailing
/// newline of a clean shutdown.
pub fn render_output(m: &Machine) -> (r: String)
    ensures
        r@ == concat_frags(out_view(*m)).push('\n'),
{
    let mut s = String::new();
    let mut i: usize = 0;
    proof {
        assert(s@ =~= concat_frags(out_view(*m).take(0)));
    }
    while i < m.output.len()
        invariant
            0 <= i <= m.output@.len(),
            s@ == concat_frags(out_view(*m).take(i as int)),
        decreases m.output@.len() - i,
    {
        s.append(m.output[i].as_str());
        proof {
            assert(out_view(*m).take(i + 1).drop_last() =~= out_view(*m).take(i as int));
            assert(out_view(*m).take(i + 1).last() == m.output@[i as int]@);
        }
        i = i + 1;
    }
    push_char(&mut s, '\n');
    proof {
        assert(out_view(*m).take(out_view(*m).len() as int) =~= out_view(*m));
    }
    s
}

/// Law: a digit opcode pushes exactly its numeral's value and grows the
/// operand stack by one; everything else is unchanged, and the instruction
/// pointer advances by one.
pub proof fn lemma_digit_pushes(prog: Seq<u8>, s: VmState)
    requires
        prog.len() <= i32::MAX,
        !terminal(prog, s),
        is_digit_op(prog[s.ip]),
    ensures
        step(prog, s) is Ok,
        ({
            let s2 = step(prog, s)->Ok_0;
            &&& s2.stack == s.stack.push((prog[s.ip] - OP_ZERO) as i32)
            &&& s2.stack.len() == s.stack.len() + 1
            &&& s2.stack.last() == (prog[s.ip] - OP_ZERO) as i32
            &&& s2.ip == s.ip + 1
            &&& s2.halted == s.halted
            &&& s2.calls == s.calls
            &&& s2.mem == s.mem
            &&& s2.out == s.out
        }),
{
}

/// Law: with `a` pushed before `b`, a binary opcode leaves `a op b` on top
/// of the rest of the stack: the wrapping sum, difference or product, the
/// truncated quotient, or the three-way comparison.
pub proof fn lemma_binop(prog: Seq<u8>, s: VmState, rest: Seq<i32>, a: i32, b: i32)
    requires
        prog.len() <= i32::MAX,
        !terminal(prog, s),
        bin_of(prog[s.ip]) is Some,
        s.stack == rest.push(a).push(b),
        bin_of(prog[s.ip]) == Some(BinOp::Div) ==> b != 0,
    ensures
        step(prog, s) is Ok,
        ({
            let s2 = step(prog, s)->Ok_0;
            &&& s2.stack == rest.push(crate::machine::word_op(bin_of(prog[s.ip])->0, a, b))
            &&& s2.stack.last() == crate::machine::word_op(bin_of(prog[s.ip])->0, a, b)
            &&& s2.ip == s.ip + 1
            &&& s2.halted == s.halted
            &&& s2.calls == s.calls
            &&& s2.mem == s.mem
            &&& s2.out == s.out
        }),
{
    assert(s.stack.drop_last() =~= rest.push(a));
    assert(s.stack.drop_last().drop_last() =~= rest);
    assert(s.stack.last() == b);
    assert(s.stack[s.stack.len() - 2] == a);
}

/// Law: dividing by zero faults with `DivideByZero`.
pub proof fn lemma_div_by_zero(prog: Seq<u8>, s: VmState, rest: Seq<i32>, a: i32)
    requires
        prog.len() <= i32::MAX,
        !terminal(prog, s),
        prog[s.ip] == OP_DIV,
        s.stack == rest.push(a).push(0i32),
    ensures
        step(prog, s) == Err::<VmState, Fault>(Fault::DivideByZero),
{
    assert(s.stack.last() == 0i32);
}

/// Law: the comparison opcode is a strict three-way comparator: `-1` when
/// `a < b`, `0` when `a == b`, `1` when `a > b`.
pub proof fn lemma_cmp_three_way(prog: Seq<u8>, s: VmState, rest: Seq<i32>, a: i32, b: i32)
    requires
        prog.len() <= i32::MAX,
        !terminal(prog, s),
        prog[s.ip] == OP_CMP,
        s.stack == rest.push(a).push(b),
    ensures
        step(prog, s) is Ok,
        a < b ==> (step(prog, s)->Ok_0).stack.last() == -1i32,
        a == b ==> (step(prog, s)->Ok_0).stack.last() == 0i32,
        a > b ==> (step(prog, s)->Ok_0).stack.last() == 1i32,
        (step(prog, s)->Ok_0).stack.drop_last() == rest,
{
    lemma_binop(prog, s, rest, a, b);
    assert((step(prog, s)->Ok_0).stack.drop_last() =~= rest);
}

/// Law: a copy opcode followed at once by a drop restores the operand stack
/// below the depth operand: the copy is non-destructive, and nothing else
/// changes.
pub proof fn lemma_copy_then_drop(prog: Seq<u8>, s: VmState, rest: Seq<i32>, d: i32)
    requires
        prog.len() <= i32::MAX,
        !s.halted,
        0 <= s.ip,
        s.ip + 1 < prog.len(),
        prog[s.ip] == OP_COPY,
        prog[s.ip + 1] == OP_DROP,
        s.stack == rest.push(d),
        0 <= d < rest.len(),
    ensures
        steps(prog, s, 2) is Ok,
        ({
            let s2 = steps(prog, s, 2)->Ok_0;
            &&& s2.stack == rest
            &&& s2.ip == s.ip + 2
            &&& s2.halted == s.halted
            &&& s2.calls == s.calls
            &&& s2.mem == s.mem
            &&& s2.out == s.out
        }),
{
    assert(s.stack.drop_last() =~= rest);
    let s1 = step(prog, s)->Ok_0;
    assert(s1.stack == rest.push(rest[rest.len() - 1 - d]));
    assert(!terminal(prog, s1));
    let s2 = step(prog, s1)->Ok_0;
    assert(s1.stack.drop_last() =~= rest);
    assert(steps(prog, s, 2) == steps(prog, s1, 1));
    assert(steps(prog, s1, 1) == steps(prog, s2, 0));
}

/// Law: the move opcode removes the designated element and pushes it on
/// top; the stack below the top is the original stack minus that one
/// element, in the same relative order.
pub proof fn lemma_remove_moves(prog: Seq<u8>, s: VmState, rest: Seq<i32>, d: i32)
    requires
        prog.len() <= i32::MAX,
        !terminal(prog, s),
        prog[s.ip] == OP_REMOVE,
        s.stack == rest.push(d),
        0 <= d < rest.len(),
    ensures
        step(prog, s) is Ok,
        ({
            let s2 = step(prog, s)->Ok_0;
            let pos = rest.len() - 1 - d;
            &&& s2.stack.last() == rest[pos]
            &&& s2.stack.drop_last() == rest.remove(pos)
            &&& s2.ip == s.ip + 1
            &&& s2.calls == s.calls
            &&& s2.mem == s.mem
            &&& s2.out == s.out
        }),
{
    assert(s.stack.drop_last() =~= rest);
    let pos = rest.len() - 1 - d;
    assert((step(prog, s)->Ok_0).stack.drop_last() =~= rest.remove(pos));
}

/// Law: a byte outside the opcode alphabet faults with `IllegalOpcode`.
pub proof fn lemma_illegal_opcode(prog: Seq<u8>, s: VmState)
    requires
        prog.len() <= i32::MAX,
        !terminal(prog, s),
        !known_op(prog[s.ip]),
    ensures
        step(prog, s) == Err::<VmState, Fault>(Fault::IllegalOpcode),
{
}

/// Law: a digit push followed at once by a print pop emits exactly the
/// ordinary base-10 rendering of the pushed value, and leaves the stack as
/// it was.
pub proof fn lemma_push_print_round_trip(prog: Seq<u8>, s: VmState)
    requires
        prog.len() <= i32::MAX,
        !s.halted,
        0 <= s.ip,
        s.ip + 1 < prog.len(),
        is_digit_op(prog[s.ip]),
        prog[s.ip + 1] == OP_PRINT_INT,
    ensures
        steps(prog, s, 2) is Ok,
        ({
            let s2 = steps(prog, s, 2)->Ok_0;
            &&& s2.out == s.out.push(dec_rep((prog[s.ip] - OP_ZERO) as int))
            &&& s2.stack == s.stack
            &&& s2.ip == s.ip + 2
            &&& s2.calls == s.calls
            &&& s2.mem == s.mem
        }),
{
    let s1 = step(prog, s)->Ok_0;
    assert(!terminal(prog, s1));
    assert(s1.stack.len() > 0);
    let s2 = step(prog, s1)->Ok_0;
    assert(s1.stack.drop_last() =~= s.stack);
    assert(s1.stack.last() == (prog[s.ip] - OP_ZERO) as i32);
    assert(steps(prog, s, 2) == steps(prog, s1, 1));
    assert(steps(prog, s1, 1) == steps(prog, s2, 0));
}

} // verus!
