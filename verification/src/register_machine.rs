//! A register machine: a flat, jump-addressed list of instructions over a
//! growable file of natural-number registers. Reading or writing a register
//! beyond the current length first extends the file with zeros; execution
//! halts exactly when the program counter no longer addresses an instruction.

use vstd::prelude::*;

verus! {

/// One instruction: `INC(r, next)` increments register `r` and jumps to
/// `next`; `DEC(r, next, alt)` decrements register `r` and jumps to `next`
/// when the register is nonzero, else leaves it unchanged and jumps to `alt`.
#[derive(Clone, Copy, Debug, PartialEq, Eq)]
pub enum RegisterInstruction {
    INC(usize, usize),
    DEC(usize, usize, usize),
}

/// A program: instructions addressed by the program counter, starting at 0.
pub struct RegisterMachine {
    instructions: Vec<RegisterInstruction>,
}

/// A machine state: the program counter, the register file, and the flag
/// that `compute` sets once the program counter leaves the program.
pub struct ProgramState {
    current_instruction: usize,
    registers: Vec<usize>,
    halted: bool,
}

/// The mathematical model of a machine state. Registers are unbounded
/// naturals; indices beyond `regs` read as zero.
pub ghost struct MachineModel {
    pub pc: nat,
    pub regs: Seq<nat>,
    pub halted: bool,
}

impl View for RegisterMachine {
    type V = Seq<RegisterInstruction>;

    closed spec fn view(&self) -> Seq<RegisterInstruction> {
        self.instructions@
    }
}

impl View for ProgramState {
    type V = MachineModel;

    closed spec fn view(&self) -> MachineModel {
        MachineModel {
            pc: self.current_instruction as nat,
            regs: self.registers@.map_values(|x: usize| x as nat),
            halted: self.halted,
        }
    }
}

/// The value of register `r`: zero once past the end of the file.
pub open spec fn reg_val(regs: Seq<nat>, r: nat) -> nat {
    if r < regs.len() {
        regs[r as int]
    } else {
        0
    }
}

/// The register file extended with zeros so that index `r` exists.
pub open spec fn extended(regs: Seq<nat>, r: nat) -> Seq<nat> {
    if r < regs.len() {
        regs
    } else {
        regs + Seq::new((r + 1 - regs.len()) as nat, |i: int| 0nat)
    }
}

/// The effect of one instruction on a state: extend the file so the
/// register exists, then increment or (when nonzero) decrement it, and set
/// the program counter to the jump target.
pub open spec fn step_state(s: MachineModel, i: RegisterInstruction) -> MachineModel {
    match i {
        RegisterInstruction::INC(r, next) => {
            let e = extended(s.regs, r as nat);
            MachineModel {
                pc: next as nat,
                regs: e.update(r as int, (e[r as int] + 1) as nat),
                halted: s.halted,
            }
        },
        RegisterInstruction::DEC(r, next, alt) => {
            let e = extended(s.regs, r as nat);
            if e[r as int] > 0 {
                MachineModel {
                    pc: next as nat,
                    regs: e.update(r as int, (e[r as int] - 1) as nat),
                    halted: s.halted,
                }
            } else {
                MachineModel { pc: alt as nat, regs: e, halted: s.halted }
            }
        },
    }
}

/// Whether the program counter addresses an instruction of `prog`.
pub open spec fn pc_in_range(s: MachineModel, prog: Seq<RegisterInstruction>) -> bool {
    s.pc < prog.len()
}

/// The state after `n` steps of `prog`. Once the program counter leaves the
/// program the state repeats unchanged.
pub open spec fn run_n(s: MachineModel, prog: Seq<RegisterInstruction>, n: nat) -> MachineModel
    decreases n,
{
    if n == 0 {
        s
    } else {
        let prev = run_n(s, prog, (n - 1) as nat);
        if pc_in_range(prev, prog) {
            step_state(prev, prog[prev.pc as int])
        } else {
            prev
        }
    }
}

/// The machine limits that one step of the executable machine needs: the
/// register index leaves room to extend the file, and an increment fits.
pub open spec fn step_ok_instr(s: MachineModel, i: RegisterInstruction) -> bool {
    match i {
        RegisterInstruction::INC(r, next) => r < usize::MAX && reg_val(s.regs, r as nat)
            < usize::MAX,
        RegisterInstruction::DEC(r, next, alt) => r < usize::MAX,
    }
}

/// The machine limits at the instruction the state is about to execute.
pub open spec fn step_ok(s: MachineModel, prog: Seq<RegisterInstruction>) -> bool {
    pc_in_range(s, prog) ==> step_ok_instr(s, prog[s.pc as int])
}

/// The machine limits hold along the whole run from `s`.
pub open spec fn trace_ok(s: MachineModel, prog: Seq<RegisterInstruction>) -> bool {
    forall|n: nat| step_ok(#[trigger] run_n(s, prog, n), prog)
}

/// The run from `s` eventually leaves the program.
pub open spec fn halts(s: MachineModel, prog: Seq<RegisterInstruction>) -> bool {
    exists|n: nat| !pc_in_range(#[trigger] run_n(s, prog, n), prog)
}

/// Some step count at which the run from `s` has left the program.
pub open spec fn halt_witness(s: MachineModel, prog: Seq<RegisterInstruction>) -> nat {
    choose|n: nat| !pc_in_range(#[trigger] run_n(s, prog, n), prog)
}

/// Once the program counter has left the program, the run stays unchanged.
pub proof fn lemma_run_stutters(
    s: MachineModel,
    prog: Seq<RegisterInstruction>,
    m: nat,
    n: nat,
)
    requires
        m <= n,
        !pc_in_range(run_n(s, prog, m), prog),
    ensures
        run_n(s, prog, n) == run_n(s, prog, m),
    decreases n,
{
    if m < n {
        lemma_run_stutters(s, prog, m, (n - 1) as nat);
    }
}

/// Extending the register file changes no register value, and makes the
/// addressed index exist.
pub proof fn lemma_extended_vals(regs: Seq<nat>, r: nat)
    ensures
        regs.len() <= extended(regs, r).len(),
        r < extended(regs, r).len(),
        forall|i: nat| reg_val(#[trigger] extended(regs, r), i) == reg_val(regs, i),
{
    assert forall|i: nat| reg_val(#[trigger] extended(regs, r), i) == reg_val(regs, i) by {
        if r < regs.len() {
        } else if i < regs.len() {
            assert(extended(regs, r)[i as int] == regs[i as int]);
        } else if i < extended(regs, r).len() {
            assert(extended(regs, r)[i as int] == 0);
        }
    }
}

/// An increment instruction raises exactly the addressed register by one,
/// leaves every other register value unchanged, and jumps to `next`.
pub proof fn lemma_increment_step(s: MachineModel, r: usize, next: usize)
    ensures
        ({
            let post = step_state(s, RegisterInstruction::INC(r, next));
            &&& post.pc == next as nat
            &&& post.halted == s.halted
            &&& reg_val(post.regs, r as nat) == reg_val(s.regs, r as nat) + 1
            &&& forall|i: nat|
                i != r as nat ==> reg_val(post.regs, i) == reg_val(s.regs, i)
        }),
{
    lemma_extended_vals(s.regs, r as nat);
    let e = extended(s.regs, r as nat);
    let post = step_state(s, RegisterInstruction::INC(r, next));
    assert(reg_val(post.regs, r as nat) == e[r as int] + 1);
    assert forall|i: nat|
        i != r as nat implies reg_val(post.regs, i) == reg_val(s.regs, i) by {
        if i < e.len() {
            assert(post.regs[i as int] == e[i as int]);
        }
    }
}

/// A decrement instruction on a positive register lowers it by one and
/// jumps to `next`; on a zero register it changes no register value and
/// jumps to `alt`.
pub proof fn lemma_decrement_step(s: MachineModel, r: usize, next: usize, alt: usize)
    ensures
        ({
            let post = step_state(s, RegisterInstruction::DEC(r, next, alt));
            &&& post.halted == s.halted
            &&& reg_val(s.regs, r as nat) > 0 ==> {
                &&& post.pc == next as nat
                &&& reg_val(post.regs, r as nat) == reg_val(s.regs, r as nat) - 1
                &&& forall|i: nat|
                    i != r as nat ==> reg_val(post.regs, i) == reg_val(s.regs, i)
            }
            &&& reg_val(s.regs, r as nat) == 0 ==> {
                &&& post.pc == alt as nat
                &&& forall|i: nat| reg_val(post.regs, i) == reg_val(s.regs, i)
            }
        }),
{
    lemma_extended_vals(s.regs, r as nat);
    let e = extended(s.regs, r as nat);
    let post = step_state(s, RegisterInstruction::DEC(r, next, alt));
    if e[r as int] > 0 {
        assert(reg_val(post.regs, r as nat) == e[r as int] - 1);
        assert forall|i: nat|
            i != r as nat implies reg_val(post.regs, i) == reg_val(s.regs, i) by {
            if i < e.len() {
                assert(post.regs[i as int] == e[i as int]);
            }
        }
    }
}

impl RegisterMachine {
    /// Builds a program from its instruction list.
    pub fn from_vec(instructions: Vec<RegisterInstruction>) -> (machine: Self)
        ensures
            machine@ == instructions@,
    {
        RegisterMachine { instructions }
    }

    /// The instruction list, as the interchange encoding carries it.
    pub fn instructions(&self) -> (instructions: &Vec<RegisterInstruction>)
        ensures
            instructions@ == self@,
    {
        &self.instructions
    }
}

impl ProgramState {
    /// Builds the initial state for a run: program counter 0, the given
    /// registers, not halted.
    pub fn from_vec(registers: Vec<usize>) -> (state: Self)
        ensures
            state@ == (MachineModel {
                pc: 0,
                regs: registers@.map_values(|x: usize| x as nat),
                halted: false,
            }),
    {
        ProgramState { current_instruction: 0, registers, halted: false }
    }

    /// Rebuilds a state from its parts, as the interchange encoding carries
    /// them.
    pub fn from_parts(current_instruction: usize, registers: Vec<usize>, halted: bool) -> (state:
        Self)
        ensures
            state@ == (MachineModel {
                pc: current_instruction as nat,
                regs: registers@.map_values(|x: usize| x as nat),
                halted,
            }),
    {
        ProgramState { current_instruction, registers, halted }
    }

    /// The program counter.
    pub fn current_instruction(&self) -> (pc: usize)
        ensures
            pc as nat == self@.pc,
    {
        self.current_instruction
    }

    /// The register file.
    pub fn registers(&self) -> (registers: &Vec<usize>)
        ensures
            registers@.map_values(|x: usize| x as nat) == self@.regs,
    {
        &self.registers
    }

    /// Whether a run has ended with the program counter outside the program.
    pub fn halted(&self) -> (halted: bool)
        ensures
            halted == self@.halted,
    {
        self.halted
    }

    /// Extends the register file with zeros until index `r` exists.
    fn extend_to(&mut self, r: usize)
        requires
            r < usize::MAX,
        ensures
            final(self)@.pc == old(self)@.pc,
            final(self)@.halted == old(self)@.halted,
            final(self)@.regs == extended(old(self)@.regs, r as nat),
            r < final(self).registers@.len(),
    {
        let ghost regs0 = self.registers@;
        while self.registers.len() <= r
            invariant
                r < usize::MAX,
                regs0.len() <= self.registers@.len(),
                self.registers@.len() <= vstd::math::max(regs0.len() as int, r + 1),
                forall|i: int| 0 <= i < regs0.len() ==> self.registers@[i] == regs0[i],
                forall|i: int|
                    regs0.len() <= i < self.registers@.len() ==> self.registers@[i] == 0,
                self.current_instruction == old(self).current_instruction,
                self.halted == old(self).halted,
            decreases r + 1 - self.registers@.len(),
        {
            self.registers.push(0);
        }
        proof {
            assert(self@.regs =~= extended(old(self)@.regs, r as nat));
        }
    }

    /// Applies exactly one instruction to the state; the result is the
    /// model step `step_state`.
    pub fn do_instruction(&mut self, instruction: &RegisterInstruction)
        requires
            step_ok_instr(old(self)@, *instruction),
        ensures
            final(self)@ == step_state(old(self)@, *instruction),
    {
        match instruction {
            RegisterInstruction::INC(register, next) => {
                let r = *register;
                self.extend_to(r);
                let v = self.registers[r];
                self.registers[r] = v + 1;
                self.current_instruction = *next;
                proof {
                    assert(self@.regs =~= step_state(old(self)@, *instruction).regs);
                }
            },
            RegisterInstruction::DEC(register, next, next_alt) => {
                let r = *register;
                self.extend_to(r);
                let v = self.registers[r];
                if v > 0 {
                    self.registers[r] = v - 1;
                    self.current_instruction = *next;
                    proof {
                        assert(self@.regs =~= step_state(old(self)@, *instruction).regs);
                    }
                } else {
                    self.current_instruction = *next_alt;
                    proof {
                        assert(self@.regs =~= step_state(old(self)@, *instruction).regs);
                    }
                }
            },
        }
    }

    /// Runs the program: applies the instruction at the program counter
    /// until the counter no longer addresses one, then sets `halted` and
    /// returns register 0 (or 0 when the file is empty). The requires ask
    /// that the run halts and stays within the machine's integer limits;
    /// the result is the state the model run reaches when it leaves the
    /// program, with `halted` set.
    pub fn compute(&mut self, machine: &RegisterMachine) -> (result: usize)
        requires
            trace_ok(old(self)@, machine@),
            halts(old(self)@, machine@),
        ensures
            final(self)@.halted,
            !pc_in_range(final(self)@, machine@),
            exists|n: nat|
                {
                    let fin = #[trigger] run_n(old(self)@, machine@, n);
                    &&& !pc_in_range(fin, machine@)
                    &&& final(self)@.pc == fin.pc
                    &&& final(self)@.regs == fin.regs
                    &&& result as nat == reg_val(fin.regs, 0)
                },
    {
        let ghost s0 = self@;
        let ghost mut steps: nat = 0;
        while self.current_instruction < machine.instructions.len()
            invariant
                trace_ok(s0, machine@),
                halts(s0, machine@),
                self@ == run_n(s0, machine@, steps),
            decreases halt_witness(s0, machine@) - steps,
        {
            proof {
                assert(!pc_in_range(run_n(s0, machine@, halt_witness(s0, machine@)), machine@));
                if halt_witness(s0, machine@) <= steps {
                    lemma_run_stutters(s0, machine@, halt_witness(s0, machine@), steps);
                }
                assert(step_ok(run_n(s0, machine@, steps), machine@));
            }
            let idx = self.current_instruction;
            let instruction = machine.instructions[idx];
            self.do_instruction(&instruction);
            proof {
                steps = steps + 1;
                assert(self@ == run_n(s0, machine@, steps));
            }
        }
        self.halted = true;
        proof {
            assert(!pc_in_range(run_n(s0, machine@, steps), machine@));
        }
        if self.registers.len() > 0 {
            self.registers[0]
        } else {
            0
        }
    }
}

} // verus!
