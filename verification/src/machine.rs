//! The machine state: memory, operand stack, call stack and output buffer,
//! with one operation per opcode family.
//!
//! Word arithmetic wraps on overflow (two's complement); division truncates
//! toward zero, faults on a zero divisor, and `i32::MIN / -1` wraps to
//! `i32::MIN`.

use vstd::prelude::*;

use crate::init::{parse_init_values, parse_spec};
use crate::text::{char_from_u32, char_to_string, dec_rep, i32_to_string, is_codepoint};

verus! {

/// Number of memory cells.
pub const MEM_SIZE: usize = 16384;

/// A fatal runtime or load fault.  Every fault aborts the whole run; nothing
/// from the output buffer is emitted.
#[derive(Clone, Copy, Debug, PartialEq, Eq, Structural)]
pub enum Fault {
    /// Pop, peek or remove on the operand stack with too few elements.
    StackUnderflow,
    /// Pop on an empty call stack.
    CallStackUnderflow,
    /// Memory address outside `[0, MEM_SIZE)`.
    OutOfRange,
    /// A program byte outside the recognized opcode set.
    IllegalOpcode,
    /// An output value that is not a Unicode scalar value.
    InvalidCodepoint,
    /// Division with a zero divisor.
    DivideByZero,
    /// A malformed token in the initial-memory text.
    LoadError,
}

/// A binary operation of the arithmetic/comparison opcodes.
#[derive(Clone, Copy, Debug, PartialEq, Eq, Structural)]
pub enum BinOp {
    Add,
    Sub,
    Mul,
    Div,
    Cmp,
}

/// Quotient of `a / b` truncated toward zero, as exact integers.
pub open spec fn trunc_quot(a: int, b: int) -> int
    recommends
        b != 0,
{
    if a == 0 {
        0
    } else if a > 0 && b > 0 {
        a / b
    } else if a < 0 && b < 0 {
        (a * -1) / (b * -1)
    } else if a < 0 {
        ((a * -1) / b) * -1
    } else {
        (a / (b * -1)) * -1
    }
}

/// Word division: truncated quotient, wrapping on overflow.  The only
/// overflowing case is `i32::MIN / -1`, whose mathematical value `2^31`
/// wraps to `i32::MIN`.
pub open spec fn word_div(a: i32, b: i32) -> i32
    recommends
        b != 0,
{
    let q = trunc_quot(a as int, b as int);
    if i32::MIN <= q <= i32::MAX {
        q as i32
    } else {
        i32::MIN
    }
}

/// Three-way comparison: `-1` if `a < b`, `0` if `a == b`, `1` if `a > b`.
pub open spec fn word_cmp(a: i32, b: i32) -> i32 {
    if a < b {
        -1i32
    } else if a == b {
        0i32
    } else {
        1i32
    }
}

/// The result a binary opcode pushes for operands `a` (pushed first) and `b`.
pub open spec fn word_op(op: BinOp, a: i32, b: i32) -> i32
    recommends
        op == BinOp::Div ==> b != 0,
{
    match op {
        BinOp::Add => a.wrapping_add(b),
        BinOp::Sub => a.wrapping_sub(b),
        BinOp::Mul => a.wrapping_mul(b),
        BinOp::Div => word_div(a, b),
        BinOp::Cmp => word_cmp(a, b),
    }
}

/// The machine: fixed-size memory, operand stack, call stack and the
/// buffered output fragments, in execution order.
pub struct Machine {
    pub mem: Vec<i32>,
    pub stack: Vec<i32>,
    pub call_stack: Vec<i32>,
    pub output: Vec<String>,
}

/// The output buffer as a sequence of character sequences.
pub open spec fn out_view(m: Machine) -> Seq<Seq<char>> {
    m.output@.map_values(|s: String| s@)
}

impl Machine {
    /// Well-formedness: the memory always holds exactly `MEM_SIZE` cells.
    pub open spec fn wf(self) -> bool {
        self.mem@.len() == MEM_SIZE
    }

    /// A fresh machine: zeroed memory, empty stacks, empty output.
    pub fn new() -> (m: Machine)
        ensures
            m.wf(),
            m.mem@ == Seq::new(MEM_SIZE as nat, |i: int| 0i32),
            m.stack@ == Seq::<i32>::empty(),
            m.call_stack@ == Seq::<i32>::empty(),
            out_view(m) == Seq::<Seq<char>>::empty(),
    {
        let m = Machine {
            mem: vec![0i32; MEM_SIZE],
            stack: Vec::new(),
            call_stack: Vec::new(),
            output: Vec::new(),
        };
        proof {
            assert(m.mem@ =~= Seq::new(MEM_SIZE as nat, |i: int| 0i32));
            assert(out_view(m) =~= Seq::<Seq<char>>::empty());
        }
        m
    }

    /// Append a word at the top of the operand stack.
    pub fn stack_push(&mut self, val: i32)
        ensures
            final(self).stack@ == old(self).stack@.push(val),
            final(self).mem@ == old(self).mem@,
            final(self).call_stack@ == old(self).call_stack@,
            final(self).output@ == old(self).output@,
    {
        self.stack.push(val);
    }

    /// Remove and return the top word; `StackUnderflow` on an empty stack.
    pub fn stack_pop(&mut self) -> (r: Result<i32, Fault>)
        ensures
            old(self).stack@.len() == 0 ==> r == Err::<i32, Fault>(Fault::StackUnderflow)
                && final(self).stack@ == old(self).stack@,
            old(self).stack@.len() > 0 ==> r == Ok::<i32, Fault>(old(self).stack@.last())
                && final(self).stack@ == old(self).stack@.drop_last(),
            final(self).mem@ == old(self).mem@,
            final(self).call_stack@ == old(self).call_stack@,
            final(self).output@ == old(self).output@,
    {
        match self.stack.pop() {
            Some(n) => Ok(n),
            None => Err(Fault::StackUnderflow),
        }
    }

    /// Copy the word at the given depth (0 = top); `StackUnderflow` if the
    /// depth is at or beyond the current size.
    pub fn stack_read(&self, idx: usize) -> (r: Result<i32, Fault>)
        ensures
            idx < self.stack@.len() ==> r == Ok::<i32, Fault>(
                self.stack@[self.stack@.len() - 1 - idx],
            ),
            idx >= self.stack@.len() ==> r == Err::<i32, Fault>(Fault::StackUnderflow),
    {
        let length = self.stack.len();
        if length == 0 || idx >= length {
            Err(Fault::StackUnderflow)
        } else {
            Ok(self.stack[length - 1 - idx])
        }
    }

    /// Remove and return the word at the given depth (0 = top), the shallower
    /// words closing the gap; `StackUnderflow` if the depth is out of range.
    pub fn stack_remove(&mut self, idx: usize) -> (r: Result<i32, Fault>)
        ensures
            idx < old(self).stack@.len() ==> {
                &&& r == Ok::<i32, Fault>(
                    old(self).stack@[old(self).stack@.len() - 1 - idx],
                )
                &&& final(self).stack@ == old(self).stack@.remove(
                    old(self).stack@.len() - 1 - idx,
                )
            },
            idx >= old(self).stack@.len() ==> r == Err::<i32, Fault>(Fault::StackUnderflow)
                && *final(self) == *old(self),
            final(self).mem@ == old(self).mem@,
            final(self).call_stack@ == old(self).call_stack@,
            final(self).output@ == old(self).output@,
    {
        let length = self.stack.len();
        if length == 0 || idx >= length {
            Err(Fault::StackUnderflow)
        } else {
            Ok(self.stack.remove(length - 1 - idx))
        }
    }

    /// Push a return address on the call stack.
    pub fn call_stack_push(&mut self, val: i32)
        ensures
            final(self).call_stack@ == old(self).call_stack@.push(val),
            final(self).mem@ == old(self).mem@,
            final(self).stack@ == old(self).stack@,
            final(self).output@ == old(self).output@,
    {
        self.call_stack.push(val);
    }

    /// Pop a return address; `CallStackUnderflow` on an empty call stack.
    pub fn call_stack_pop(&mut self) -> (r: Result<i32, Fault>)
        ensures
            old(self).call_stack@.len() == 0 ==> r == Err::<i32, Fault>(
                Fault::CallStackUnderflow,
            ) && final(self).call_stack@ == old(self).call_stack@,
            old(self).call_stack@.len() > 0 ==> r == Ok::<i32, Fault>(
                old(self).call_stack@.last(),
            ) && final(self).call_stack@ == old(self).call_stack@.drop_last(),
            final(self).mem@ == old(self).mem@,
            final(self).stack@ == old(self).stack@,
            final(self).output@ == old(self).output@,
    {
        match self.call_stack.pop() {
            Some(n) => Ok(n),
            None => Err(Fault::CallStackUnderflow),
        }
    }

    /// Read a memory cell; `OutOfRange` outside `[0, MEM_SIZE)`.
    pub fn mem_read(&self, addr: i32) -> (r: Result<i32, Fault>)
        requires
            self.wf(),
        ensures
            0 <= addr < MEM_SIZE ==> r == Ok::<i32, Fault>(self.mem@[addr as int]),
            !(0 <= addr < MEM_SIZE) ==> r == Err::<i32, Fault>(Fault::OutOfRange),
    {
        if addr < 0 || addr >= MEM_SIZE as i32 {
            Err(Fault::OutOfRange)
        } else {
            Ok(self.mem[addr as usize])
        }
    }

    /// Write a memory cell; `OutOfRange` outside `[0, MEM_SIZE)`.
    pub fn mem_write(&mut self, addr: i32, val: i32) -> (r: Result<(), Fault>)
        requires
            old(self).wf(),
        ensures
            final(self).wf(),
            0 <= addr < MEM_SIZE ==> r == Ok::<(), Fault>(())
                && final(self).mem@ == old(self).mem@.update(addr as int, val),
            !(0 <= addr < MEM_SIZE) ==> r == Err::<(), Fault>(Fault::OutOfRange)
                && *final(self) == *old(self),
            final(self).stack@ == old(self).stack@,
            final(self).call_stack@ == old(self).call_stack@,
            final(self).output@ == old(self).output@,
    {
        if addr < 0 || addr >= MEM_SIZE as i32 {
            Err(Fault::OutOfRange)
        } else {
            self.mem.set(addr as usize, val);
            Ok(())
        }
    }

    /// Pop a word and append it to the output buffer: its decimal rendering
    /// when `is_int` holds, otherwise the single character with that code
    /// point (`InvalidCodepoint` when there is none).
    pub fn add_stdout(&mut self, is_int: bool) -> (r: Result<(), Fault>)
        ensures
            final(self).mem@ == old(self).mem@,
            final(self).call_stack@ == old(self).call_stack@,
            ({
                let st = old(self).stack@;
                if st.len() == 0 {
                    r == Err::<(), Fault>(Fault::StackUnderflow) && *final(self) == *old(self)
                } else if !is_int && !is_codepoint(st.last()) {
                    r == Err::<(), Fault>(Fault::InvalidCodepoint) && *final(self) == *old(self)
                } else {
                    &&& r == Ok::<(), Fault>(())
                    &&& final(self).stack@ == st.drop_last()
                    &&& out_view(*final(self)) == out_view(*old(self)).push(
                        if is_int {
                            dec_rep(st.last() as int)
                        } else {
                            seq![(st.last() as u32) as char]
                        },
                    )
                }
            }),
    {
        let len = self.stack.len();
        if len == 0 {
            return Err(Fault::StackUnderflow);
        }
        let n = self.stack[len - 1];
        let frag: String = if is_int {
            i32_to_string(n)
        } else {
            if !(n >= 0 && (n < 0xD800 || (n >= 0xE000 && n <= 0x10FFFF))) {
                return Err(Fault::InvalidCodepoint);
            }
            let c = char_from_u32(n as u32).unwrap();
            char_to_string(c)
        };
        let _popped = self.stack.pop();
        self.output.push(frag);
        proof {
            assert(final(self).stack@ =~= old(self).stack@.drop_last());
            assert(out_view(*final(self)) =~= out_view(*old(self)).push(frag@));
        }
        Ok(())
    }

    /// Pop `b` then `a` and push `a op b` (`a` was pushed before `b`);
    /// `StackUnderflow` with fewer than two words, `DivideByZero` on a zero
    /// divisor.
    pub fn do_op(&mut self, op: BinOp) -> (r: Result<(), Fault>)
        ensures
            final(self).mem@ == old(self).mem@,
            final(self).call_stack@ == old(self).call_stack@,
            final(self).output@ == old(self).output@,
            ({
                let st = old(self).stack@;
                if st.len() < 2 {
                    r == Err::<(), Fault>(Fault::StackUnderflow) && *final(self) == *old(self)
                } else if op == BinOp::Div && st.last() == 0i32 {
                    r == Err::<(), Fault>(Fault::DivideByZero) && *final(self) == *old(self)
                } else {
                    r == Ok::<(), Fault>(()) && final(self).stack@
                        == st.drop_last().drop_last().push(
                        word_op(op, st[st.len() - 2], st.last()),
                    )
                }
            }),
    {
        let len = self.stack.len();
        if len < 2 {
            return Err(Fault::StackUnderflow);
        }
        let b = self.stack[len - 1];
        let a = self.stack[len - 2];
        let res: i32 = match op {
            BinOp::Add => a.wrapping_add(b),
            BinOp::Sub => a.wrapping_sub(b),
            BinOp::Mul => a.wrapping_mul(b),
            BinOp::Div => {
                if b == 0 {
                    return Err(Fault::DivideByZero);
                }
                match a.checked_div(b) {
                    Some(q) => q,
                    None => i32::MIN,
                }
            },
            BinOp::Cmp => {
                if a < b {
                    -1
                } else if a == b {
                    0
                } else {
                    1
                }
            },
        };
        let _popped = self.stack.pop();
        let _popped2 = self.stack.pop();
        self.stack.push(res);
        proof {
            assert(res == word_op(op, a, b));
            assert(final(self).stack@ =~= old(self).stack@.drop_last().drop_last().push(
                word_op(op, a, b),
            ));
        }
        Ok(())
    }

    /// Pop an offset, then a condition; the offset is returned (`Some`) when
    /// the condition is zero, and the jump is not taken (`None`) otherwise.
    pub fn cond_jump(&mut self) -> (r: Result<Option<i32>, Fault>)
        ensures
            final(self).mem@ == old(self).mem@,
            final(self).call_stack@ == old(self).call_stack@,
            final(self).output@ == old(self).output@,
            ({
                let st = old(self).stack@;
                if st.len() < 2 {
                    r == Err::<Option<i32>, Fault>(Fault::StackUnderflow) && *final(self)
                        == *old(self)
                } else {
                    final(self).stack@ == st.drop_last().drop_last() && r == Ok::<
                        Option<i32>,
                        Fault,
                    >(
                        if st[st.len() - 2] == 0i32 {
                            Some(st.last())
                        } else {
                            None
                        },
                    )
                }
            }),
    {
        let len = self.stack.len();
        if len < 2 {
            return Err(Fault::StackUnderflow);
        }
        let jump = self.stack[len - 1];
        let cond = self.stack[len - 2];
        let _popped = self.stack.pop();
        let _popped2 = self.stack.pop();
        proof {
            assert(final(self).stack@ =~= old(self).stack@.drop_last().drop_last());
        }
        if cond == 0 {
            Ok(Some(jump))
        } else {
            Ok(None)
        }
    }

    /// Pop an address and push the memory word it names.
    pub fn load_mem(&mut self) -> (r: Result<(), Fault>)
        requires
            old(self).wf(),
        ensures
            final(self).wf(),
            final(self).mem@ == old(self).mem@,
            final(self).call_stack@ == old(self).call_stack@,
            final(self).output@ == old(self).output@,
            ({
                let st = old(self).stack@;
                if st.len() == 0 {
                    r == Err::<(), Fault>(Fault::StackUnderflow) && *final(self) == *old(self)
                } else if !(0 <= st.last() < MEM_SIZE) {
                    r == Err::<(), Fault>(Fault::OutOfRange) && *final(self) == *old(self)
                } else {
                    r == Ok::<(), Fault>(()) && final(self).stack@ == st.drop_last().push(
                        old(self).mem@[st.last() as int],
                    )
                }
            }),
    {
        let len = self.stack.len();
        if len == 0 {
            return Err(Fault::StackUnderflow);
        }
        let addr = self.stack[len - 1];
        let val = match self.mem_read(addr) {
            Ok(v) => v,
            Err(f) => {
                return Err(f);
            },
        };
        let _popped = self.stack.pop();
        self.stack.push(val);
        proof {
            assert(final(self).stack@ =~= old(self).stack@.drop_last().push(
                old(self).mem@[old(self).stack@.last() as int],
            ));
        }
        Ok(())
    }

    /// Pop an address, then a value, and store the value at that address.
    pub fn store_mem(&mut self) -> (r: Result<(), Fault>)
        requires
            old(self).wf(),
        ensures
            final(self).wf(),
            final(self).call_stack@ == old(self).call_stack@,
            final(self).output@ == old(self).output@,
            ({
                let st = old(self).stack@;
                if st.len() < 2 {
                    r == Err::<(), Fault>(Fault::StackUnderflow) && *final(self) == *old(self)
                } else if !(0 <= st.last() < MEM_SIZE) {
                    r == Err::<(), Fault>(Fault::OutOfRange) && *final(self) == *old(self)
                } else {
                    &&& r == Ok::<(), Fault>(())
                    &&& final(self).stack@ == st.drop_last().drop_last()
                    &&& final(self).mem@ == old(self).mem@.update(
                        st.last() as int,
                        st[st.len() - 2],
                    )
                }
            }),
    {
        let len = self.stack.len();
        if len < 2 {
            return Err(Fault::StackUnderflow);
        }
        let addr = self.stack[len - 1];
        let val = self.stack[len - 2];
        if addr < 0 || addr >= MEM_SIZE as i32 {
            return Err(Fault::OutOfRange);
        }
        let _popped = self.stack.pop();
        let _popped2 = self.stack.pop();
        let _ = self.mem_write(addr, val);
        proof {
            assert(final(self).stack@ =~= old(self).stack@.drop_last().drop_last());
        }
        Ok(())
    }

    /// Pop a depth and push a copy of the word at that depth of the
    /// remaining stack (0 = top); the original stays in place.
    pub fn copy_stack(&mut self) -> (r: Result<(), Fault>)
        ensures
            final(self).mem@ == old(self).mem@,
            final(self).call_stack@ == old(self).call_stack@,
            final(self).output@ == old(self).output@,
            ({
                let st = old(self).stack@;
                if st.len() == 0 {
                    r == Err::<(), Fault>(Fault::StackUnderflow) && *final(self) == *old(self)
                } else {
                    let d = st.last();
                    let rest = st.drop_last();
                    if d < 0 || d >= rest.len() {
                        r == Err::<(), Fault>(Fault::StackUnderflow) && *final(self) == *old(
                            self,
                        )
                    } else {
                        r == Ok::<(), Fault>(()) && final(self).stack@ == rest.push(
                            rest[rest.len() - 1 - d],
                        )
                    }
                }
            }),
    {
        let len = self.stack.len();
        if len == 0 {
            return Err(Fault::StackUnderflow);
        }
        let d = self.stack[len - 1];
        if d < 0 || d as usize >= len - 1 {
            return Err(Fault::StackUnderflow);
        }
        let _popped = self.stack.pop();
        let v = self.stack[self.stack.len() - 1 - d as usize];
        self.stack.push(v);
        proof {
            let rest = old(self).stack@.drop_last();
            assert(final(self).stack@ =~= rest.push(rest[rest.len() - 1 - d]));
        }
        Ok(())
    }

    /// Pop a depth, remove the word at that depth of the remaining stack
    /// (0 = top) and push it: the word moves to the top.
    pub fn remove_stack(&mut self) -> (r: Result<(), Fault>)
        ensures
            final(self).mem@ == old(self).mem@,
            final(self).call_stack@ == old(self).call_stack@,
            final(self).output@ == old(self).output@,
            ({
                let st = old(self).stack@;
                if st.len() == 0 {
                    r == Err::<(), Fault>(Fault::StackUnderflow) && *final(self) == *old(self)
                } else {
                    let d = st.last();
                    let rest = st.drop_last();
                    if d < 0 || d >= rest.len() {
                        r == Err::<(), Fault>(Fault::StackUnderflow) && *final(self) == *old(
                            self,
                        )
                    } else {
                        r == Ok::<(), Fault>(()) && final(self).stack@ == rest.remove(
                            rest.len() - 1 - d,
                        ).push(rest[rest.len() - 1 - d])
                    }
                }
            }),
    {
        let len = self.stack.len();
        if len == 0 {
            return Err(Fault::StackUnderflow);
        }
        let d = self.stack[len - 1];
        if d < 0 || d as usize >= len - 1 {
            return Err(Fault::StackUnderflow);
        }
        let _popped = self.stack.pop();
        let v = self.stack.remove(self.stack.len() - 1 - d as usize);
        self.stack.push(v);
        proof {
            let rest = old(self).stack@.drop_last();
            assert(final(self).stack@ =~= rest.remove(rest.len() - 1 - d).push(
                rest[rest.len() - 1 - d],
            ));
        }
        Ok(())
    }

    /// Copy `values[0..min(len, MEM_SIZE)]` into the first memory cells; the
    /// remaining cells keep their previous value, extra values are ignored.
    pub fn bulk_load(&mut self, values: &Vec<i32>)
        requires
            old(self).wf(),
        ensures
            final(self).wf(),
            final(self).stack@ == old(self).stack@,
            final(self).call_stack@ == old(self).call_stack@,
            final(self).output@ == old(self).output@,
            forall|i: int|
                0 <= i < MEM_SIZE ==> final(self).mem@[i] == (if i < values@.len() {
                    values@[i]
                } else {
                    old(self).mem@[i]
                }),
    {
        let mut j: usize = 0;
        while j < values.len() && j < MEM_SIZE
            invariant
                old(self).wf(),
                self.wf(),
                0 <= j <= MEM_SIZE,
                self.stack@ == old(self).stack@,
                self.call_stack@ == old(self).call_stack@,
                self.output@ == old(self).output@,
                forall|i: int|
                    0 <= i < MEM_SIZE ==> self.mem@[i] == (if i < j && i < values@.len() {
                        values@[i]
                    } else {
                        old(self).mem@[i]
                    }),
            decreases values@.len() - j,
        {
            self.mem.set(j, values[j]);
            j += 1;
        }
    }

    /// Parse an initial-memory text and load its values into the first
    /// memory cells; `LoadError` when some token is not a signed decimal
    /// word, and then nothing changes.
    pub fn mem_init(&mut self, text: &[u8]) -> (r: Result<(), Fault>)
        requires
            old(self).wf(),
        ensures
            final(self).wf(),
            final(self).stack@ == old(self).stack@,
            final(self).call_stack@ == old(self).call_stack@,
            final(self).output@ == old(self).output@,
            match r {
                Ok(()) => parse_spec(text@) is Some && (forall|i: int|
                    0 <= i < MEM_SIZE ==> final(self).mem@[i] == (if i < parse_spec(
                        text@,
                    ).unwrap().len() {
                        parse_spec(text@).unwrap()[i]
                    } else {
                        old(self).mem@[i]
                    })),
                Err(f) => f == Fault::LoadError && parse_spec(text@) is None
                    && final(self).mem@ == old(self).mem@,
            },
    {
        match parse_init_values(text) {
            Ok(vals) => {
                self.bulk_load(&vals);
                Ok(())
            },
            Err(f) => Err(f),
        }
    }
}

} // verus!
