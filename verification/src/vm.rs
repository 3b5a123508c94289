//! The optimizing compiler and the tape machine. The compiler folds runs of
//! identical arithmetic or movement statements into single signed-delta
//! instructions and resolves loop delimiters into a matched pair of absolute
//! jump targets. The machine executes the resolved stream against a
//! fixed-capacity byte tape with explicit failure modes for arithmetic and
//! pointer-bounds violations.

use vstd::prelude::*;
use crate::parser::Statement;

verus! {

/// Number of byte cells on the tape.
pub const MEMORY_CELLS: usize = 30000;

/// A resolved, optimized bytecode unit. After resolution, the target of a
/// `JumpIfZero` is the index of its matching `JumpIfNotZero` and vice versa.
#[derive(Debug, Clone, Copy, PartialEq, Eq, Structural)]
pub enum Instruction {
    Increment(i32),
    Shift(i32),
    Print,
    Read,
    JumpIfZero(usize),
    JumpIfNotZero(usize),
}

/// A run-time failure of the user program. Both are returned to the caller
/// rather than aborting the machine, and both leave the machine state exactly
/// as it was before the failing instruction.
#[derive(Debug, Clone, Copy, PartialEq, Eq, Structural)]
pub enum RuntimeError {
    /// An `Increment` with negative delta would drive a cell below zero.
    NegativeRegister,
    /// A `Shift` would move the cell pointer outside the tape.
    NoMoreCells,
}

/// What a bounded run of the machine ended with, when no failure occurred.
#[derive(Debug, Clone, Copy, PartialEq, Eq, Structural)]
pub enum EvalOutcome {
    /// The instruction pointer ran past the end of the stream: the program
    /// completed successfully.
    Halted,
    /// The step budget ran out first. The machine state persists, so another
    /// call to [`VM::eval`] resumes the run where it stopped.
    Paused,
}

/// The mathematical state of the machine: the instruction pointer, the cell
/// pointer, the tape, the input stream with the position reached in it, and
/// the bytes output so far.
pub struct VmState {
    pub i_ptr: int,
    pub mem_ptr: int,
    pub memory: Seq<u8>,
    pub input: Seq<u8>,
    pub in_pos: int,
    pub output: Seq<u8>,
}

/// `v` clamped to the byte ceiling (callers never pass a negative `v`).
pub open spec fn clamped_byte(v: int) -> u8 {
    if v > 255 {
        255u8
    } else {
        v as u8
    }
}

/// One step of the machine on instruction `instr`: either the successor state
/// (whose `i_ptr` is where control moves next) or the failure, which leaves
/// the state untouched.
///
/// `Increment` saturates at the byte ceiling but an excursion below zero is a
/// [`RuntimeError::NegativeRegister`] failure; `Shift` commits only when the
/// candidate cell pointer stays on the tape. `Read` past the end of the input
/// stream leaves the cell unchanged, by convention. A jump whose guard is
/// false degrades to a fallthrough, so each bracket instruction doubles as
/// branch test and landing pad.
pub open spec fn step(s: VmState, instr: Instruction) -> Result<VmState, RuntimeError> {
    let cell = s.memory[s.mem_ptr];
    match instr {
        Instruction::Increment(n) => if cell + n < 0 {
            Err(RuntimeError::NegativeRegister)
        } else {
            Ok(VmState { i_ptr: s.i_ptr + 1, memory: s.memory.update(s.mem_ptr, clamped_byte(cell + n)), ..s })
        },
        Instruction::Shift(n) => if 0 <= s.mem_ptr + n && s.mem_ptr + n < MEMORY_CELLS as int {
            Ok(VmState { i_ptr: s.i_ptr + 1, mem_ptr: s.mem_ptr + n, ..s })
        } else {
            Err(RuntimeError::NoMoreCells)
        },
        Instruction::Print => Ok(VmState { i_ptr: s.i_ptr + 1, output: s.output.push(cell), ..s }),
        Instruction::Read => if s.in_pos < s.input.len() {
            Ok(VmState {
                i_ptr: s.i_ptr + 1,
                memory: s.memory.update(s.mem_ptr, s.input[s.in_pos]),
                in_pos: s.in_pos + 1,
                ..s
            })
        } else {
            Ok(VmState { i_ptr: s.i_ptr + 1, ..s })
        },
        Instruction::JumpIfZero(t) => Ok(
            VmState { i_ptr: if cell == 0 { t as int } else { s.i_ptr + 1 }, ..s },
        ),
        Instruction::JumpIfNotZero(t) => Ok(
            VmState { i_ptr: if cell != 0 { t as int } else { s.i_ptr + 1 }, ..s },
        ),
    }
}

/// `s2` arises from `s1` by one successful step of the program `prog`, taken
/// at the instruction the pointer of `s1` stands on.
pub open spec fn step_at(prog: Seq<Instruction>, s1: VmState, s2: VmState) -> bool {
    &&& 0 <= s1.i_ptr < prog.len()
    &&& step(s1, prog[s1.i_ptr]) == Ok::<VmState, RuntimeError>(s2)
}

/// `s2` arises from `s1` by exactly `n` successful steps of the program
/// `prog`, each taken at the instruction the pointer then stood on.
pub open spec fn steps_to(prog: Seq<Instruction>, s1: VmState, s2: VmState, n: nat) -> bool
    decreases n,
{
    if n == 0 {
        s1 == s2
    } else {
        exists|mid: VmState|
            steps_to(prog, s1, mid, (n - 1) as nat) && #[trigger] step_at(prog, mid, s2)
    }
}

/// A run of `n` steps from `s1` to `mid` extends to a run of `n + 1` steps
/// when one more step is possible at `mid`.
pub proof fn lemma_steps_to_extend(
    prog: Seq<Instruction>,
    s1: VmState,
    mid: VmState,
    s2: VmState,
    n: nat,
)
    requires
        steps_to(prog, s1, mid, n),
        step_at(prog, mid, s2),
    ensures
        steps_to(prog, s1, s2, n + 1),
{
    let m: nat = n + 1;
    assert(steps_to(prog, s1, mid, (m - 1) as nat));
    assert(steps_to(prog, s1, s2, m));
}

/// The executor: a fixed-capacity byte tape, an instruction pointer, a cell
/// pointer, an input stream with a read position, and the output collected so
/// far. One instance owns its tape exclusively; re-running a program takes a
/// fresh machine.
pub struct VM {
    i_ptr: usize,
    mem_ptr: usize,
    memory: Vec<u8>,
    input: Vec<u8>,
    in_ptr: usize,
    output: Vec<u8>,
}

impl View for VM {
    type V = VmState;

    closed spec fn view(&self) -> VmState {
        VmState {
            i_ptr: self.i_ptr as int,
            mem_ptr: self.mem_ptr as int,
            memory: self.memory@,
            input: self.input@,
            in_pos: self.in_ptr as int,
            output: self.output@,
        }
    }
}

impl VM {
    /// The machine's structural invariant: a full-capacity tape, the cell
    /// pointer on it, and the read position inside the input stream.
    pub closed spec fn wf(&self) -> bool {
        &&& self.memory@.len() == MEMORY_CELLS
        &&& self.mem_ptr < MEMORY_CELLS
        &&& self.in_ptr <= self.input@.len()
    }

    /// A fresh machine whose input stream is `input`: both registers zero,
    /// tape all zero, nothing read, nothing output.
    pub fn with_input(input: Vec<u8>) -> (r: VM)
        ensures
            r.wf(),
            r@.i_ptr == 0,
            r@.mem_ptr == 0,
            r@.memory.len() == MEMORY_CELLS,
            forall|i: int| 0 <= i < MEMORY_CELLS ==> r@.memory[i] == 0u8,
            r@.input == input@,
            r@.in_pos == 0,
            r@.output == Seq::<u8>::empty(),
    {
        let mut memory: Vec<u8> = Vec::new();
        let mut i: usize = 0;
        while i < MEMORY_CELLS
            invariant
                i <= MEMORY_CELLS,
                memory@ =~= Seq::new(i as nat, |j: int| 0u8),
            decreases MEMORY_CELLS - i,
        {
            memory.push(0);
            proof {
                assert(memory@ =~= Seq::new(i as nat + 1, |j: int| 0u8));
            }
            i = i + 1;
        }
        VM { i_ptr: 0, mem_ptr: 0, memory, input, in_ptr: 0, output: Vec::new() }
    }

    /// The byte at tape cell `idx`.
    pub fn cell(&self, idx: usize) -> (r: u8)
        requires
            idx < self@.memory.len(),
        ensures
            r == self@.memory[idx as int],
    {
        self.memory[idx]
    }

    /// The current cell pointer.
    pub fn mem_ptr(&self) -> (r: usize)
        ensures
            r as int == self@.mem_ptr,
    {
        self.mem_ptr
    }

    /// The current instruction pointer.
    pub fn i_ptr(&self) -> (r: usize)
        ensures
            r as int == self@.i_ptr,
    {
        self.i_ptr
    }

    /// Every byte the machine has output so far, oldest first.
    pub fn output(&self) -> (r: &Vec<u8>)
        ensures
            r@ == self@.output,
    {
        &self.output
    }

    /// Applies `instruction` once to the machine: exactly one [`step`], except
    /// that the new instruction pointer is returned rather than stored, so the
    /// run loop decides where control goes. On failure the machine is left
    /// untouched.
    pub fn eval_one(&mut self, instruction: &Instruction) -> (r: Result<usize, RuntimeError>)
        requires
            old(self).wf(),
            old(self)@.i_ptr < usize::MAX as int,
        ensures
            final(self).wf(),
            final(self)@.i_ptr == old(self)@.i_ptr,
            match step(old(self)@, *instruction) {
                Ok(post) => {
                    &&& r matches Ok(next) && next as int == post.i_ptr
                    &&& final(self)@ == (VmState { i_ptr: old(self)@.i_ptr, ..post })
                },
                Err(e) => r == Err::<usize, RuntimeError>(e) && final(self)@ == old(self)@,
            },
    {
        let cell = self.memory[self.mem_ptr];
        match *instruction {
            Instruction::Increment(n) => {
                let sum: i64 = cell as i64 + n as i64;
                if sum < 0 {
                    return Err(RuntimeError::NegativeRegister);
                }
                let clamped: u8 = if sum > 255 {
                    255
                } else {
                    sum as u8
                };
                self.memory.set(self.mem_ptr, clamped);
                Ok(self.i_ptr + 1)
            },
            Instruction::Shift(n) => {
                let target: i64 = self.mem_ptr as i64 + n as i64;
                if 0 <= target && target < MEMORY_CELLS as i64 {
                    self.mem_ptr = target as usize;
                    Ok(self.i_ptr + 1)
                } else {
                    Err(RuntimeError::NoMoreCells)
                }
            },
            Instruction::Print => {
                self.output.push(cell);
                Ok(self.i_ptr + 1)
            },
            Instruction::Read => {
                if self.in_ptr < self.input.len() {
                    let b = self.input[self.in_ptr];
                    self.memory.set(self.mem_ptr, b);
                    self.in_ptr = self.in_ptr + 1;
                }
                Ok(self.i_ptr + 1)
            },
            Instruction::JumpIfZero(target) => {
                if cell == 0 {
                    Ok(target)
                } else {
                    Ok(self.i_ptr + 1)
                }
            },
            Instruction::JumpIfNotZero(target) => {
                if cell != 0 {
                    Ok(target)
                } else {
                    Ok(self.i_ptr + 1)
                }
            },
        }
    }

    /// Runs `expr` for at most `max_steps` further instructions. Halting —
    /// the instruction pointer running past the end of the stream — is the
    /// sole successful terminal state; a run cut short by the budget reports
    /// [`EvalOutcome::Paused`] and resumes on the next call, since all state
    /// persists in the machine. A run-time failure is returned with the
    /// machine left exactly at the failing instruction.
    pub fn eval(&mut self, expr: &[Instruction], max_steps: usize) -> (r: Result<
        EvalOutcome,
        RuntimeError,
    >)
        requires
            old(self).wf(),
        ensures
            final(self).wf(),
            final(self)@.input == old(self)@.input,
            exists|n: nat| n <= max_steps && #[trigger] steps_to(
                expr@,
                old(self)@,
                final(self)@,
                n,
            ),
            r matches Ok(outcome) ==> {
                &&& (outcome == EvalOutcome::Halted <==> final(self)@.i_ptr >= expr@.len())
                &&& (outcome == EvalOutcome::Paused ==> steps_to(
                    expr@,
                    old(self)@,
                    final(self)@,
                    max_steps as nat,
                ))
            },
            r matches Err(e) ==> {
                &&& 0 <= final(self)@.i_ptr < expr@.len()
                &&& step(final(self)@, expr@[final(self)@.i_ptr]) == Err::<VmState,
                    RuntimeError,
                >(e)
            },
    {
        let ghost start = self@;
        let mut steps: usize = 0;
        while self.i_ptr < expr.len() && steps < max_steps
            invariant
                self.wf(),
                steps <= max_steps,
                start == old(self)@,
                steps_to(expr@, start, self@, steps as nat),
                self@.input == start.input,
            decreases max_steps - steps,
        {
            let instruction = expr[self.i_ptr];
            let ghost pre = self@;
            match self.eval_one(&instruction) {
                Ok(next) => {
                    self.i_ptr = next;
                    proof {
                        assert(step(pre, expr@[pre.i_ptr]) == Ok::<VmState, RuntimeError>(
                            self@,
                        ));
                        assert(step_at(expr@, pre, self@));
                        lemma_steps_to_extend(expr@, start, pre, self@, steps as nat);
                    }
                },
                Err(e) => {
                    return Err(e);
                },
            }
            steps = steps + 1;
        }
        if self.i_ptr >= expr.len() {
            Ok(EvalOutcome::Halted)
        } else {
            Ok(EvalOutcome::Paused)
        }
    }
}

/// The forward pass's accumulator: nothing pending, a pending arithmetic
/// delta, or a pending movement delta.
pub enum Acc {
    Idle,
    Inc(int),
    Shift(int),
}

/// The instruction a pending accumulator stands for: nothing when it is idle
/// or its delta cancelled to zero, else one signed-delta instruction.
pub open spec fn flushed(acc: Acc) -> Seq<Instruction> {
    match acc {
        Acc::Idle => Seq::empty(),
        Acc::Inc(n) => if n == 0 {
            Seq::empty()
        } else {
            seq![Instruction::Increment(n as i32)]
        },
        Acc::Shift(n) => if n == 0 {
            Seq::empty()
        } else {
            seq![Instruction::Shift(n as i32)]
        },
    }
}

/// What the forward pass does with one statement in accumulator state `acc`:
/// the instructions it appends, and the accumulator it continues with. A
/// statement of the class being accumulated extends the pending delta; any
/// other statement first flushes the accumulator.
pub open spec fn absorb(acc: Acc, s: Statement) -> (Seq<Instruction>, Acc) {
    match (s, acc) {
        (Statement::Increment, Acc::Inc(n)) => (Seq::empty(), Acc::Inc(n + 1)),
        (Statement::Decrement, Acc::Inc(n)) => (Seq::empty(), Acc::Inc(n - 1)),
        (Statement::ShiftRight, Acc::Shift(n)) => (Seq::empty(), Acc::Shift(n + 1)),
        (Statement::ShiftLeft, Acc::Shift(n)) => (Seq::empty(), Acc::Shift(n - 1)),
        _ => {
            let out = flushed(acc);
            match s {
                Statement::Increment => (out, Acc::Inc(1)),
                Statement::Decrement => (out, Acc::Inc(-1)),
                Statement::ShiftRight => (out, Acc::Shift(1)),
                Statement::ShiftLeft => (out, Acc::Shift(-1)),
                Statement::Print => (out.push(Instruction::Print), Acc::Idle),
                Statement::Read => (out.push(Instruction::Read), Acc::Idle),
                Statement::JumpIfZero(d) => (out.push(Instruction::JumpIfZero(d)), Acc::Idle),
                Statement::JumpIfNotZero(d) => (
                    out.push(Instruction::JumpIfNotZero(d)),
                    Acc::Idle,
                ),
            }
        },
    }
}

/// The provisional instruction stream the forward pass emits for `stmts` when
/// started in accumulator state `acc`, final flush included.
pub open spec fn fwd_from(stmts: Seq<Statement>, acc: Acc) -> Seq<Instruction>
    decreases stmts.len(),
{
    if stmts.len() == 0 {
        flushed(acc)
    } else {
        absorb(acc, stmts[0]).0 + fwd_from(stmts.skip(1), absorb(acc, stmts[0]).1)
    }
}

/// The provisional stream for `stmts`: runs of identical arithmetic or
/// movement statements folded into one signed-delta instruction, zero-net
/// runs dropped, every other statement lowered one-to-one, loop delimiters
/// still carrying their depth tags as provisional targets.
pub open spec fn folded(stmts: Seq<Statement>) -> Seq<Instruction> {
    fwd_from(stmts, Acc::Idle)
}

/// How one instruction changes the bracket nesting depth.
pub open spec fn jump_delta(ins: Instruction) -> int {
    match ins {
        Instruction::JumpIfZero(_) => 1,
        Instruction::JumpIfNotZero(_) => -1,
        _ => 0,
    }
}

/// The bracket nesting depth in force just before position `k` of `code`.
pub open spec fn jump_depth(code: Seq<Instruction>, k: int) -> int
    decreases k,
{
    if k <= 0 {
        0
    } else {
        jump_depth(code, k - 1) + jump_delta(code[k - 1])
    }
}

/// The loop delimiters of `code` nest like brackets: the depth never goes
/// negative and returns to zero at the end.
pub open spec fn code_balanced(code: Seq<Instruction>) -> bool {
    &&& forall|k: int| 0 <= k <= code.len() ==> #[trigger] jump_depth(code, k) >= 0
    &&& jump_depth(code, code.len() as int) == 0
}

/// The first position `j` at or after `from` where the depth after `j`
/// returns to `d`; `code.len()` when there is none.
pub open spec fn scan_close(code: Seq<Instruction>, from: int, d: int) -> int
    decreases code.len() - from,
{
    if from >= code.len() {
        code.len() as int
    } else if jump_depth(code, from + 1) == d {
        from
    } else {
        scan_close(code, from + 1, d)
    }
}

/// The last position `j` at or before `upto` where the depth before `j` is
/// `d`; `-1` when there is none.
pub open spec fn scan_open(code: Seq<Instruction>, upto: int, d: int) -> int
    decreases upto + 1,
{
    if upto < 0 {
        -1
    } else if jump_depth(code, upto) == d {
        upto
    } else {
        scan_open(code, upto - 1, d)
    }
}

/// The position of the loop-close matching a loop-open at `i`: the nearest
/// following position where the depth returns to what it was before the open.
pub open spec fn close_of(code: Seq<Instruction>, i: int) -> int {
    scan_close(code, i + 1, jump_depth(code, i))
}

/// The position of the loop-open matching a loop-close at `i`: the nearest
/// preceding position whose depth equals the depth after the close.
pub open spec fn open_of(code: Seq<Instruction>, i: int) -> int {
    scan_open(code, i - 1, jump_depth(code, i + 1))
}

/// `code[i]` with a loop delimiter's provisional tag replaced by the absolute
/// index of its partner; any other instruction unchanged.
pub open spec fn resolve_one(code: Seq<Instruction>, i: int) -> Instruction {
    match code[i] {
        Instruction::JumpIfZero(_) => Instruction::JumpIfZero(close_of(code, i) as usize),
        Instruction::JumpIfNotZero(_) => Instruction::JumpIfNotZero(open_of(code, i) as usize),
        other => other,
    }
}

/// `code` with every loop delimiter rewritten to the absolute index of its
/// partner.
pub open spec fn resolved(code: Seq<Instruction>) -> Seq<Instruction> {
    Seq::new(code.len(), |i: int| resolve_one(code, i))
}

/// The compiled form of `stmts`: the folded stream with its loop delimiters
/// resolved.
pub open spec fn compiled(stmts: Seq<Statement>) -> Seq<Instruction> {
    resolved(folded(stmts))
}

/// `jump_depth(_, k)` reads only the first `k` instructions.
proof fn lemma_jump_depth_agree(c1: Seq<Instruction>, c2: Seq<Instruction>, k: int)
    requires
        forall|j: int| 0 <= j < k ==> c1[j] == c2[j],
    ensures
        jump_depth(c1, k) == jump_depth(c2, k),
    decreases k,
{
    if k > 0 {
        lemma_jump_depth_agree(c1, c2, k - 1);
    }
}

/// Appending one instruction leaves every earlier prefix depth alone and
/// moves the final depth by that instruction's delta.
proof fn lemma_jump_depth_push(code: Seq<Instruction>, x: Instruction)
    ensures
        forall|k: int|
            0 <= k <= code.len() ==> #[trigger] jump_depth(code.push(x), k) == jump_depth(
                code,
                k,
            ),
        jump_depth(code.push(x), code.len() as int + 1) == jump_depth(code, code.len() as int)
            + jump_delta(x),
{
    assert forall|k: int| 0 <= k <= code.len() implies #[trigger] jump_depth(code.push(x), k)
        == jump_depth(code, k) by {
        lemma_jump_depth_agree(code.push(x), code, k);
    }
    let n = code.len() as int;
    assert(jump_depth(code.push(x), n + 1) == jump_depth(code.push(x), n) + jump_delta(
        code.push(x)[n],
    ));
    assert(code.push(x)[n] == x);
    assert(jump_depth(code.push(x), n) == jump_depth(code, n));
}

/// Between two positions where the depth never returns to `d`, it stays
/// strictly above `d`, because each instruction moves it by at most one.
proof fn lemma_stay_above(code: Seq<Instruction>, a: int, b: int, d: int)
    requires
        0 <= a <= b <= code.len(),
        jump_depth(code, a) > d,
        forall|m: int| a <= m < b ==> #[trigger] jump_depth(code, m + 1) != d,
    ensures
        forall|m: int| a <= m <= b ==> #[trigger] jump_depth(code, m) > d,
    decreases b - a,
{
    if a < b {
        assert(jump_depth(code, a + 1) == jump_depth(code, a) + jump_delta(code[a]));
        assert(jump_depth(code, a + 1) != d);
        lemma_stay_above(code, a + 1, b, d);
    }
}

/// What the forward scan returns: the first qualifying position at or after
/// `from`, or the length when none qualifies.
proof fn lemma_scan_close_props(code: Seq<Instruction>, from: int, d: int)
    requires
        0 <= from <= code.len(),
    ensures
        from <= scan_close(code, from, d) <= code.len(),
        scan_close(code, from, d) < code.len() ==> jump_depth(
            code,
            scan_close(code, from, d) + 1,
        ) == d,
        forall|m: int|
            from <= m < scan_close(code, from, d) ==> #[trigger] jump_depth(code, m + 1) != d,
    decreases code.len() - from,
{
    if from < code.len() && jump_depth(code, from + 1) != d {
        lemma_scan_close_props(code, from + 1, d);
    }
}

/// The forward scan stops exactly at `j` when `j` qualifies and nothing
/// before it does.
proof fn lemma_scan_close_finds(code: Seq<Instruction>, from: int, d: int, j: int)
    requires
        0 <= from <= j < code.len(),
        jump_depth(code, j + 1) == d,
        forall|m: int| from <= m < j ==> #[trigger] jump_depth(code, m + 1) != d,
    ensures
        scan_close(code, from, d) == j,
    decreases j - from,
{
    if from < j {
        lemma_scan_close_finds(code, from + 1, d, j);
    }
}

/// The forward scan reaches at least `bound` when nothing before `bound`
/// qualifies.
proof fn lemma_scan_close_at_least(code: Seq<Instruction>, from: int, d: int, bound: int)
    requires
        0 <= from <= bound <= code.len(),
        forall|m: int| from <= m < bound ==> #[trigger] jump_depth(code, m + 1) != d,
    ensures
        scan_close(code, from, d) >= bound,
    decreases bound - from,
{
    if from < bound {
        lemma_scan_close_at_least(code, from + 1, d, bound);
    } else {
        lemma_scan_close_props(code, from, d);
    }
}

/// The backward scan stops exactly at `j` when `j` qualifies and nothing
/// after it does.
proof fn lemma_scan_open_finds(code: Seq<Instruction>, upto: int, d: int, j: int)
    requires
        0 <= j <= upto,
        jump_depth(code, j) == d,
        forall|m: int| j < m <= upto ==> #[trigger] jump_depth(code, m) != d,
    ensures
        scan_open(code, upto, d) == j,
    decreases upto - j,
{
    if j < upto {
        lemma_scan_open_finds(code, upto - 1, d, j);
    }
}

/// In balanced code, every loop-open has a matching loop-close strictly after
/// it: the depth stays strictly above the open's depth until it drops back by
/// exactly one at the close.
proof fn lemma_close_exists(code: Seq<Instruction>, i: int)
    requires
        code_balanced(code),
        0 <= i < code.len(),
        code[i] is JumpIfZero,
    ensures
        i < close_of(code, i) < code.len(),
        code[close_of(code, i)] is JumpIfNotZero,
        jump_depth(code, close_of(code, i)) == jump_depth(code, i) + 1,
        jump_depth(code, close_of(code, i) + 1) == jump_depth(code, i),
        forall|m: int|
            i + 1 <= m <= close_of(code, i) ==> #[trigger] jump_depth(code, m) > jump_depth(
                code,
                i,
            ),
{
    let d = jump_depth(code, i);
    let j = close_of(code, i);
    assert(jump_depth(code, i + 1) == d + jump_delta(code[i]));
    lemma_scan_close_props(code, i + 1, d);
    if j == code.len() {
        lemma_stay_above(code, i + 1, code.len() as int, d);
        assert(jump_depth(code, code.len() as int) > d);
        assert(d >= 0);
        assert(false);
    }
    lemma_stay_above(code, i + 1, j, d);
    assert(jump_depth(code, j + 1) == jump_depth(code, j) + jump_delta(code[j]));
    assert(jump_delta(code[j]) == -1);
    assert(code[j] is JumpIfNotZero);
}

/// A loop-open at `p` whose close the resolution has not reached by position
/// `b` keeps the depth strictly above its own throughout `(p, b]`, and its
/// close sits exactly at `b` when and only when the depth after `b` drops
/// back to the open's depth.
proof fn lemma_open_pending(code: Seq<Instruction>, p: int, b: int)
    requires
        0 <= p < b <= code.len(),
        code[p] is JumpIfZero,
        close_of(code, p) >= b,
    ensures
        forall|m: int|
            p + 1 <= m <= b ==> #[trigger] jump_depth(code, m) > jump_depth(code, p),
        b < code.len() ==> (close_of(code, p) == b <==> jump_depth(code, b + 1) == jump_depth(
            code,
            p,
        )),
{
    let d = jump_depth(code, p);
    assert(jump_depth(code, p + 1) == d + jump_delta(code[p]));
    lemma_scan_close_props(code, p + 1, d);
    lemma_stay_above(code, p + 1, b, d);
    if b < code.len() && jump_depth(code, b + 1) == d {
        lemma_scan_close_finds(code, p + 1, d, b);
    }
}

/// Jump symmetry: in the resolved form of balanced provisional code, every
/// loop-open at `i` targets a loop-close strictly after it, and that close
/// targets `i` back — the pairing is symmetric and mirrors the bracket
/// nesting, sibling groups at a reused depth included.
pub proof fn lemma_jump_symmetry(code: Seq<Instruction>)
    requires
        code_balanced(code),
    ensures
        forall|i: int|
            #![trigger code[i]]
            0 <= i < code.len() && code[i] is JumpIfZero ==> {
                let j = close_of(code, i);
                &&& i < j < code.len()
                &&& resolved(code)[i] == Instruction::JumpIfZero(j as usize)
                &&& code[j] is JumpIfNotZero
                &&& resolved(code)[j] == Instruction::JumpIfNotZero(i as usize)
            },
{
    assert forall|i: int|
        #![trigger code[i]]
        0 <= i < code.len() && code[i] is JumpIfZero implies {
        let j = close_of(code, i);
        &&& i < j < code.len()
        &&& resolved(code)[i] == Instruction::JumpIfZero(j as usize)
        &&& code[j] is JumpIfNotZero
        &&& resolved(code)[j] == Instruction::JumpIfNotZero(i as usize)
    } by {
        let d = jump_depth(code, i);
        let j = close_of(code, i);
        lemma_close_exists(code, i);
        lemma_scan_open_finds(code, j - 1, d, i);
        assert(open_of(code, j) == i);
    }
}

/// The forward pass's working state while compiling: the executable twin of
/// [`Acc`].
#[derive(Clone, Copy)]
enum CompilerState {
    Initial,
    Increment(i32),
    Shift(i32),
}

/// The accumulator a working state stands for.
spec fn acc_view(c: CompilerState) -> Acc {
    match c {
        CompilerState::Initial => Acc::Idle,
        CompilerState::Increment(n) => Acc::Inc(n as int),
        CompilerState::Shift(n) => Acc::Shift(n as int),
    }
}

/// Appends the instruction the pending accumulator stands for, if any, and
/// resets the accumulator.
fn flush_and_reset(state: &mut CompilerState, bytecode: &mut Vec<Instruction>)
    ensures
        final(bytecode)@ == old(bytecode)@ + flushed(acc_view(*old(state))),
        acc_view(*final(state)) == Acc::Idle,
{
    match *state {
        CompilerState::Increment(n) => {
            if n != 0 {
                bytecode.push(Instruction::Increment(n));
            }
        },
        CompilerState::Shift(n) => {
            if n != 0 {
                bytecode.push(Instruction::Shift(n));
            }
        },
        CompilerState::Initial => {},
    }
    *state = CompilerState::Initial;
    proof {
        assert(bytecode@ =~= old(bytecode)@ + flushed(acc_view(*old(state))));
    }
}

/// Lowers a statement sequence to its resolved instruction stream: one
/// forward pass folds runs of arithmetic and movement statements into single
/// signed-delta instructions and drops zero-net runs, then one resolution
/// pass rewrites each loop delimiter's depth tag into the absolute index of
/// its partner.
pub fn compile(instructions: &[Statement]) -> (r: Vec<Instruction>)
    requires
        crate::parser::stmts_balanced(instructions@),
        instructions@.len() <= i32::MAX as int,
    ensures
        r@ == compiled(instructions@),
        code_balanced(folded(instructions@)),
{
    let ghost stmts = instructions@;
    let mut state = CompilerState::Initial;
    let mut bytecode: Vec<Instruction> = Vec::new();
    let mut i: usize = 0;
    proof {
        assert(stmts.skip(0) =~= stmts);
        assert(bytecode@ + fwd_from(stmts.skip(0), acc_view(state)) =~= folded(stmts));
    }
    while i < instructions.len()
        invariant
            i <= stmts.len(),
            stmts == instructions@,
            stmts.len() <= i32::MAX as int,
            crate::parser::stmts_balanced(stmts),
            folded(stmts) == bytecode@ + fwd_from(stmts.skip(i as int), acc_view(state)),
            match state {
                CompilerState::Increment(n) => -(i as int) <= n as int <= i as int,
                CompilerState::Shift(n) => -(i as int) <= n as int <= i as int,
                CompilerState::Initial => true,
            },
            jump_depth(bytecode@, bytecode@.len() as int) == crate::parser::stmt_depth(
                stmts,
                i as int,
            ),
            forall|k: int| 0 <= k <= bytecode@.len() ==> #[trigger] jump_depth(bytecode@, k) >= 0,
        decreases stmts.len() - i,
    {
        let instruction = instructions[i];
        let ghost acc0 = acc_view(state);
        let ghost bc0 = bytecode@;
        proof {
            assert(stmts.skip(i as int)[0] == stmts[i as int]);
            assert(stmts.skip(i as int).skip(1) =~= stmts.skip(i as int + 1));
            assert(crate::parser::stmt_depth(stmts, i as int + 1) == crate::parser::stmt_depth(
                stmts,
                i as int,
            ) + crate::parser::stmt_delta(stmts[i as int]));
        }
        match (instruction, state) {
            (Statement::Increment, CompilerState::Increment(n)) => {
                state = CompilerState::Increment(n + 1);
            },
            (Statement::Decrement, CompilerState::Increment(n)) => {
                state = CompilerState::Increment(n - 1);
            },
            (Statement::ShiftRight, CompilerState::Shift(n)) => {
                state = CompilerState::Shift(n + 1);
            },
            (Statement::ShiftLeft, CompilerState::Shift(n)) => {
                state = CompilerState::Shift(n - 1);
            },
            _ => {
                flush_and_reset(&mut state, &mut bytecode);
                proof {
                    if flushed(acc0).len() > 0 {
                        assert(bytecode@ =~= bc0.push(flushed(acc0)[0]));
                        lemma_jump_depth_push(bc0, flushed(acc0)[0]);
                    } else {
                        assert(bytecode@ =~= bc0);
                    }
                }
                let ghost bc1 = bytecode@;
                match instruction {
                    Statement::ShiftRight => state = CompilerState::Shift(1),
                    Statement::ShiftLeft => state = CompilerState::Shift(-1),
                    Statement::Increment => state = CompilerState::Increment(1),
                    Statement::Decrement => state = CompilerState::Increment(-1),
                    Statement::Print => bytecode.push(Instruction::Print),
                    Statement::Read => bytecode.push(Instruction::Read),
                    Statement::JumpIfZero(n) => bytecode.push(Instruction::JumpIfZero(n)),
                    Statement::JumpIfNotZero(n) => bytecode.push(
                        Instruction::JumpIfNotZero(n),
                    ),
                }
                proof {
                    if bytecode@.len() > bc1.len() {
                        lemma_jump_depth_push(bc1, bytecode@[bc1.len() as int]);
                    }
                }
            },
        }
        proof {
            let pair = absorb(acc0, stmts[i as int]);
            assert(acc_view(state) == pair.1);
            assert(bytecode@ =~= bc0 + pair.0);
            assert(fwd_from(stmts.skip(i as int), acc0) == pair.0 + fwd_from(
                stmts.skip(i as int + 1),
                pair.1,
            ));
            assert(bc0 + fwd_from(stmts.skip(i as int), acc0) =~= (bc0 + pair.0) + fwd_from(
                stmts.skip(i as int + 1),
                pair.1,
            ));
            assert(jump_depth(bytecode@, bytecode@.len() as int) == crate::parser::stmt_depth(
                stmts,
                i as int + 1,
            ));
        }
        i = i + 1;
    }
    let ghost acc_end = acc_view(state);
    let ghost bc_end = bytecode@;
    flush_and_reset(&mut state, &mut bytecode);
    proof {
        assert(stmts.skip(stmts.len() as int) =~= Seq::<Statement>::empty());
        assert(fwd_from(stmts.skip(stmts.len() as int), acc_end) == flushed(acc_end));
        assert(bytecode@ =~= folded(stmts));
        if flushed(acc_end).len() > 0 {
            assert(bytecode@ =~= bc_end.push(flushed(acc_end)[0]));
            lemma_jump_depth_push(bc_end, flushed(acc_end)[0]);
        } else {
            assert(bytecode@ =~= bc_end);
        }
        assert(code_balanced(bytecode@));
        assert(code_balanced(folded(stmts)));
    }
    resolve_jumps(&mut bytecode);
    bytecode
}

/// Resolves the provisional loop delimiters of `code` in place. One
/// left-to-right pass keeps a stack of the still-unmatched loop-open
/// positions; each loop-close pairs with the most recent unmatched open, and
/// the two targets are rewritten to each other's index. On the statement
/// builder's output this pairing coincides with matching by depth tag, since
/// a depth value is only reused after the whole group at that depth has
/// closed.
pub fn resolve_jumps(code: &mut Vec<Instruction>)
    requires
        code_balanced(old(code)@),
    ensures
        final(code)@ == resolved(old(code)@),
{
    let ghost orig = code@;
    let mut stack: Vec<usize> = Vec::new();
    let mut i: usize = 0;
    while i < code.len()
        invariant
            code@.len() == orig.len(),
            i <= orig.len(),
            code_balanced(orig),
            stack@.len() == jump_depth(orig, i as int),
            forall|k: int|
                #![trigger stack@[k]]
                0 <= k < stack@.len() ==> {
                    &&& 0 <= stack@[k] < i
                    &&& orig[stack@[k] as int] is JumpIfZero
                    &&& jump_depth(orig, stack@[k] as int) == k
                    &&& forall|m: int|
                        stack@[k] < m <= i ==> #[trigger] jump_depth(orig, m) > k
                },
            forall|p: int| i <= p < orig.len() ==> #[trigger] code@[p] == orig[p],
            forall|p: int|
                0 <= p < i && !(orig[p] is JumpIfZero) ==> #[trigger] code@[p] == resolve_one(
                    orig,
                    p,
                ),
            forall|p: int|
                0 <= p < i && orig[p] is JumpIfZero && close_of(orig, p) < i
                    ==> #[trigger] code@[p] == resolve_one(orig, p),
            forall|p: int|
                0 <= p < i && orig[p] is JumpIfZero && close_of(orig, p) >= i
                    ==> #[trigger] code@[p] == orig[p],
        decreases orig.len() - i,
    {
        let ins = code[i];
        let ghost d_i = jump_depth(orig, i as int);
        proof {
            assert(code@[i as int] == orig[i as int]);
            assert(jump_depth(orig, i as int + 1) == d_i + jump_delta(orig[i as int]));
            assert(jump_depth(orig, i as int + 1) >= 0);
        }
        match ins {
            Instruction::JumpIfZero(_) => {
                stack.push(i);
                proof {
                    lemma_scan_close_at_least(orig, i as int + 1, d_i, i as int + 1);
                    assert(close_of(orig, i as int) >= i as int + 1);
                    assert forall|p: int|
                        0 <= p < i && orig[p] is JumpIfZero && close_of(orig, p)
                            >= i as int implies close_of(orig, p) >= i as int + 1 by {
                        lemma_open_pending(orig, p, i as int);
                        assert(jump_depth(orig, i as int) > jump_depth(orig, p));
                    }
                }
            },
            Instruction::JumpIfNotZero(_) => {
                proof {
                    assert(stack@.len() >= 1);
                }
                let ghost stk0 = stack@;
                let ghost k_top = stk0.len() - 1;
                let j = stack.pop().unwrap();
                proof {
                    assert(j == stk0[k_top]);
                    assert(jump_depth(orig, i as int + 1) == k_top);
                    assert forall|m: int| j as int + 1 <= m < i implies #[trigger] jump_depth(
                        orig,
                        m + 1,
                    ) != k_top by {
                        assert(jump_depth(orig, m + 1) > k_top);
                    }
                    lemma_scan_close_finds(orig, j as int + 1, k_top, i as int);
                    assert(close_of(orig, j as int) == i as int);
                    assert forall|m: int| (j as int) < m <= i as int - 1 implies #[trigger] jump_depth(
                        orig,
                        m,
                    ) != k_top by {
                        assert(jump_depth(orig, m) > k_top);
                    }
                    lemma_scan_open_finds(orig, i as int - 1, k_top, j as int);
                    assert(open_of(orig, i as int) == j as int);
                }
                code.set(j, Instruction::JumpIfZero(i));
                code.set(i, Instruction::JumpIfNotZero(j));
                proof {
                    assert(code@[j as int] == resolve_one(orig, j as int));
                    assert(code@[i as int] == resolve_one(orig, i as int));
                    assert forall|p: int|
                        0 <= p < i && orig[p] is JumpIfZero && close_of(orig, p) >= i as int && p
                            != j as int implies close_of(orig, p) >= i as int + 1 by {
                        lemma_open_pending(orig, p, i as int);
                        if p < j as int {
                            assert(jump_depth(orig, j as int) > jump_depth(orig, p));
                        } else {
                            assert(jump_depth(orig, p) > k_top);
                        }
                    }
                }
            },
            _ => {
                proof {
                    assert(code@[i as int] == resolve_one(orig, i as int));
                    assert forall|p: int|
                        0 <= p < i && orig[p] is JumpIfZero && close_of(orig, p)
                            >= i as int implies close_of(orig, p) >= i as int + 1 by {
                        lemma_open_pending(orig, p, i as int);
                        assert(jump_depth(orig, i as int) > jump_depth(orig, p));
                    }
                }
            },
        }
        i = i + 1;
    }
    proof {
        assert forall|p: int| 0 <= p < orig.len() implies code@[p] == resolve_one(orig, p) by {
            if orig[p] is JumpIfZero {
                lemma_close_exists(orig, p);
            }
        }
        assert(code@ =~= resolved(orig));
    }
}

impl Default for VM {
    /// A fresh machine with an empty input stream.
    fn default() -> (r: Self)
        ensures
            r.wf(),
            r@.i_ptr == 0,
            r@.mem_ptr == 0,
            r@.memory.len() == MEMORY_CELLS,
            forall|i: int| 0 <= i < MEMORY_CELLS ==> r@.memory[i] == 0u8,
            r@.input == Seq::<u8>::empty(),
            r@.in_pos == 0,
            r@.output == Seq::<u8>::empty(),
    {
        VM::with_input(Vec::new())
    }
}

} // verus!
