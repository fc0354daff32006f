//! An interpreter for a small structured WHILE language: assignments,
//! conditionals, bounded loops with a bound captured at entry, and unbounded
//! condition-tested loops, over one flat store of named natural-number
//! variables. The semantics is a fuel-indexed evaluation function on a map
//! from variable names to values; the executable interpreter is verified to
//! return exactly an outcome of that semantics.

use vstd::prelude::*;

verus! {

/// The right-hand side of an assignment: the constant zero, the value of
/// another variable, or that value plus one.
pub enum AssignType {
    Zero,
    Variable(String),
    VariableIncremented(String),
}

/// One statement. `If(a, b, t, e)` runs `t` when `a < b` holds strictly,
/// else `e`. `For(v, body)` runs `body` as many times as `v` holds at entry.
/// `While(a, b, body)` re-evaluates `a < b` before every iteration.
pub enum WhileInstruction {
    Assign(String, AssignType),
    If(String, String, Box<WhileProgram>, Box<WhileProgram>),
    For(String, Box<WhileProgram>),
    While(String, String, Box<WhileProgram>),
}

/// A program: an ordered sequence of statements.
pub struct WhileProgram {
    instructions: Vec<WhileInstruction>,
}

/// The variable store: one flat namespace shared by every block. A variable
/// must be written before any statement reads it.
pub struct WhileState {
    variable_states: Vec<(String, usize)>,
}

/// Why a run stopped early: a statement read a variable absent from the
/// store, or an increment did not fit into the machine's integers.
#[derive(Debug)]
pub enum WhileError {
    UndefinedVariable(String),
    ValueOverflow(String),
}

/// The store as mathematics: variable names (as character sequences) to
/// values.
pub type VarMap = Map<Seq<char>, usize>;

/// The model of a `WhileError`.
pub ghost enum WhileFault {
    Undefined(Seq<char>),
    Overflow(Seq<char>),
}

/// What a run of a statement or block comes to: a final store, a fault
/// together with the store at the moment of the fault, or fuel exhaustion
/// (the run needs more than `fuel` evaluation steps, or none suffices).
pub ghost enum RunOutcome {
    Done(VarMap),
    Fault(WhileFault, VarMap),
    OutOfFuel,
}

impl View for WhileError {
    type V = WhileFault;

    open spec fn view(&self) -> WhileFault {
        match self {
            WhileError::UndefinedVariable(name) => WhileFault::Undefined(name@),
            WhileError::ValueOverflow(name) => WhileFault::Overflow(name@),
        }
    }
}

impl View for WhileProgram {
    type V = Seq<WhileInstruction>;

    closed spec fn view(&self) -> Seq<WhileInstruction> {
        self.instructions@
    }
}

/// The map an association list stands for; a later entry for the same name
/// would win, but well-formed stores never hold two entries for one name.
pub closed spec fn map_of(entries: Seq<(String, usize)>) -> VarMap
    decreases entries.len(),
{
    if entries.len() == 0 {
        Map::empty()
    } else {
        map_of(entries.drop_last()).insert(entries.last().0@, entries.last().1)
    }
}

impl View for WhileState {
    type V = VarMap;

    closed spec fn view(&self) -> VarMap {
        map_of(self.variable_states@)
    }
}

impl WhileState {
    /// Well-formed: no two entries name the same variable.
    pub closed spec fn wf(&self) -> bool {
        forall|i: int, j: int|
            0 <= i < j < self.variable_states@.len()
                ==> #[trigger] self.variable_states@[i].0@ != #[trigger] self.variable_states@[j].0@
    }
}

proof fn lemma_map_of_contains(entries: Seq<(String, usize)>, k: Seq<char>)
    ensures
        map_of(entries).dom().contains(k) <==> exists|i: int|
            0 <= i < entries.len() && #[trigger] entries[i].0@ == k,
    decreases entries.len(),
{
    if entries.len() > 0 {
        lemma_map_of_contains(entries.drop_last(), k);
        if map_of(entries).dom().contains(k) {
            if entries.last().0@ != k {
                let i = choose|i: int|
                    0 <= i < entries.drop_last().len() && #[trigger] entries.drop_last()[i].0@
                        == k;
                assert(entries[i].0@ == k);
            }
        }
        if exists|i: int| 0 <= i < entries.len() && #[trigger] entries[i].0@ == k {
            let i = choose|i: int| 0 <= i < entries.len() && #[trigger] entries[i].0@ == k;
            if i < entries.len() - 1 {
                assert(entries.drop_last()[i].0@ == k);
            }
        }
    }
}

proof fn lemma_map_of_index(entries: Seq<(String, usize)>, i: int)
    requires
        0 <= i < entries.len(),
        forall|p: int, q: int|
            0 <= p < q < entries.len() ==> #[trigger] entries[p].0@ != #[trigger] entries[q].0@,
    ensures
        map_of(entries).dom().contains(entries[i].0@),
        map_of(entries)[entries[i].0@] == entries[i].1,
    decreases entries.len(),
{
    if i == entries.len() - 1 {
    } else {
        assert(entries[i].0@ != entries[entries.len() - 1].0@);
        assert(entries.drop_last()[i] == entries[i]);
        lemma_map_of_index(entries.drop_last(), i);
    }
}

proof fn lemma_map_of_update(entries: Seq<(String, usize)>, i: int, p: (String, usize))
    requires
        0 <= i < entries.len(),
        forall|u: int, v: int|
            0 <= u < v < entries.len() ==> #[trigger] entries[u].0@ != #[trigger] entries[v].0@,
        entries[i].0@ == p.0@,
    ensures
        map_of(entries.update(i, p)) == map_of(entries).insert(p.0@, p.1),
    decreases entries.len(),
{
    let updated = entries.update(i, p);
    if i == entries.len() - 1 {
        assert(updated.drop_last() =~= entries.drop_last());
        assert(updated.last() == p);
        assert(map_of(updated) == map_of(entries.drop_last()).insert(p.0@, p.1));
        assert(map_of(entries.drop_last()).insert(entries.last().0@, entries.last().1).insert(
            p.0@,
            p.1,
        ) =~= map_of(entries.drop_last()).insert(p.0@, p.1));
    } else {
        assert(updated.drop_last() =~= entries.drop_last().update(i, p));
        assert(updated.last() == entries.last());
        assert(entries.drop_last()[i] == entries[i]);
        lemma_map_of_update(entries.drop_last(), i, p);
        assert(entries[i].0@ != entries[entries.len() - 1].0@);
        assert(map_of(entries.drop_last()).insert(p.0@, p.1).insert(
            entries.last().0@,
            entries.last().1,
        ) =~= map_of(entries.drop_last()).insert(entries.last().0@, entries.last().1).insert(
            p.0@,
            p.1,
        ));
    }
}

impl WhileState {
    /// An empty store.
    pub fn new() -> (state: Self)
        ensures
            state.wf(),
            state@ == Map::<Seq<char>, usize>::empty(),
    {
        WhileState { variable_states: Vec::new() }
    }

    /// Binds `key` to `value`, overwriting any earlier binding.
    pub fn insert(&mut self, key: String, value: usize)
        requires
            old(self).wf(),
        ensures
            final(self).wf(),
            final(self)@ == old(self)@.insert(key@, value),
    {
        let ghost entries0 = self.variable_states@;
        let mut j: usize = 0;
        while j < self.variable_states.len()
            invariant
                old(self)@ == map_of(entries0),
                self.wf(),
                j <= self.variable_states@.len(),
                self.variable_states@ == entries0,
                forall|jj: int| 0 <= jj < j ==> #[trigger] entries0[jj].0@ != key@,
            decreases self.variable_states@.len() - j,
        {
            if self.variable_states[j].0 == key {
                proof {
                    lemma_map_of_update(entries0, j as int, (key, value));
                }
                self.variable_states[j] = (key, value);
                proof {
                    assert forall|u: int, v: int|
                        0 <= u < v < self.variable_states@.len() implies #[trigger] self
                        .variable_states@[u].0@ != #[trigger] self.variable_states@[v].0@ by {
                        assert(entries0[u].0@ != entries0[v].0@);
                    }
                }
                return ;
            }
            j += 1;
        }
        proof {
            lemma_map_of_contains(entries0, key@);
        }
        self.variable_states.push((key, value));
        proof {
            assert(self.variable_states@.drop_last() =~= entries0);
            assert(self.variable_states@.last() == (key, value));
            assert forall|u: int, v: int|
                0 <= u < v < self.variable_states@.len() implies #[trigger] self
                .variable_states@[u].0@ != #[trigger] self.variable_states@[v].0@ by {
                if v < entries0.len() {
                    assert(entries0[u].0@ != entries0[v].0@);
                } else {
                    assert(entries0[u].0@ != key@);
                }
            }
        }
    }

    /// Looks `key` up; `None` exactly when the store does not bind it.
    pub fn get(&self, key: &str) -> (value: Option<&usize>)
        requires
            self.wf(),
        ensures
            match value {
                Some(v) => self@.dom().contains(key@) && *v == self@[key@],
                None => !self@.dom().contains(key@),
            },
    {
        let k: String = key.to_owned();
        let mut j: usize = 0;
        while j < self.variable_states.len()
            invariant
                self.wf(),
                j <= self.variable_states@.len(),
                k@ == key@,
                forall|jj: int|
                    0 <= jj < j ==> #[trigger] self.variable_states@[jj].0@ != key@,
            decreases self.variable_states@.len() - j,
        {
            if self.variable_states[j].0 == k {
                proof {
                    lemma_map_of_index(self.variable_states@, j as int);
                }
                return Some(&self.variable_states[j].1);
            }
            j += 1;
        }
        proof {
            lemma_map_of_contains(self.variable_states@, key@);
        }
        None
    }
}

/// Evaluates one statement on a store, spending at most `fuel` steps.
/// Assignments bind the target; reads of unbound variables fault. `If` and
/// `While` compare two variables with strict less-than, so equal values take
/// the else branch or end the loop. `For` captures its bound at entry;
/// `While` re-reads its condition before every iteration.
pub open spec fn run_stmt(fuel: nat, stmt: WhileInstruction, vars: VarMap) -> RunOutcome
    decreases fuel,
{
    if fuel == 0 {
        RunOutcome::OutOfFuel
    } else {
        match stmt {
            WhileInstruction::Assign(var, assign) => match assign {
                AssignType::Zero => RunOutcome::Done(vars.insert(var@, 0)),
                AssignType::Variable(other) => if vars.dom().contains(other@) {
                    RunOutcome::Done(vars.insert(var@, vars[other@]))
                } else {
                    RunOutcome::Fault(WhileFault::Undefined(other@), vars)
                },
                AssignType::VariableIncremented(other) => if vars.dom().contains(other@) {
                    if vars[other@] < usize::MAX {
                        RunOutcome::Done(vars.insert(var@, (vars[other@] + 1) as usize))
                    } else {
                        RunOutcome::Fault(WhileFault::Overflow(other@), vars)
                    }
                } else {
                    RunOutcome::Fault(WhileFault::Undefined(other@), vars)
                },
            },
            WhileInstruction::If(first_var, second_var, if_block, else_block) => {
                if !vars.dom().contains(first_var@) {
                    RunOutcome::Fault(WhileFault::Undefined(first_var@), vars)
                } else if !vars.dom().contains(second_var@) {
                    RunOutcome::Fault(WhileFault::Undefined(second_var@), vars)
                } else if vars[first_var@] < vars[second_var@] {
                    run_block((fuel - 1) as nat, if_block@, vars)
                } else {
                    run_block((fuel - 1) as nat, else_block@, vars)
                }
            },
            WhileInstruction::For(var, block) => {
                if !vars.dom().contains(var@) {
                    RunOutcome::Fault(WhileFault::Undefined(var@), vars)
                } else {
                    run_repeat((fuel - 1) as nat, block@, vars[var@] as nat, vars)
                }
            },
            WhileInstruction::While(first_var, second_var, block) => {
                if !vars.dom().contains(first_var@) {
                    RunOutcome::Fault(WhileFault::Undefined(first_var@), vars)
                } else if !vars.dom().contains(second_var@) {
                    RunOutcome::Fault(WhileFault::Undefined(second_var@), vars)
                } else if vars[first_var@] < vars[second_var@] {
                    match run_block((fuel - 1) as nat, block@, vars) {
                        RunOutcome::Done(vars2) => run_stmt((fuel - 1) as nat, stmt, vars2),
                        other => other,
                    }
                } else {
                    RunOutcome::Done(vars)
                }
            },
        }
    }
}

/// Evaluates the statements of a block in order, threading the store.
pub open spec fn run_block(fuel: nat, stmts: Seq<WhileInstruction>, vars: VarMap) -> RunOutcome
    decreases fuel,
{
    if fuel == 0 {
        RunOutcome::OutOfFuel
    } else if stmts.len() == 0 {
        RunOutcome::Done(vars)
    } else {
        match run_stmt((fuel - 1) as nat, stmts[0], vars) {
            RunOutcome::Done(vars2) => run_block((fuel - 1) as nat, stmts.skip(1), vars2),
            other => other,
        }
    }
}

/// Evaluates a block `count` times in a row, threading the store.
pub open spec fn run_repeat(
    fuel: nat,
    stmts: Seq<WhileInstruction>,
    count: nat,
    vars: VarMap,
) -> RunOutcome
    decreases fuel,
{
    if fuel == 0 {
        RunOutcome::OutOfFuel
    } else if count == 0 {
        RunOutcome::Done(vars)
    } else {
        match run_block((fuel - 1) as nat, stmts, vars) {
            RunOutcome::Done(vars2) => run_repeat(
                (fuel - 1) as nat,
                stmts,
                (count - 1) as nat,
                vars2,
            ),
            other => other,
        }
    }
}

/// Some fuel lets the statement finish (with a store or a fault).
pub open spec fn term_stmt(stmt: WhileInstruction, vars: VarMap) -> bool {
    exists|f: nat| (#[trigger] run_stmt(f, stmt, vars)) != RunOutcome::OutOfFuel
}

/// Some fuel lets the block finish.
pub open spec fn term_block(stmts: Seq<WhileInstruction>, vars: VarMap) -> bool {
    exists|f: nat| (#[trigger] run_block(f, stmts, vars)) != RunOutcome::OutOfFuel
}

/// Evaluation is monotone in fuel: once the fuel suffices, more fuel gives
/// the very same outcome. So any two sufficient fuels agree, and the
/// semantics is a partial function of statement and store.
pub proof fn lemma_fuel_mono_stmt(f1: nat, f2: nat, stmt: WhileInstruction, vars: VarMap)
    requires
        f1 <= f2,
        run_stmt(f1, stmt, vars) != RunOutcome::OutOfFuel,
    ensures
        run_stmt(f2, stmt, vars) == run_stmt(f1, stmt, vars),
    decreases f1,
{
    match stmt {
        WhileInstruction::Assign(var, assign) => {},
        WhileInstruction::If(first_var, second_var, if_block, else_block) => {
            if vars.dom().contains(first_var@) && vars.dom().contains(second_var@) {
                if vars[first_var@] < vars[second_var@] {
                    lemma_fuel_mono_block((f1 - 1) as nat, (f2 - 1) as nat, if_block@, vars);
                } else {
                    lemma_fuel_mono_block((f1 - 1) as nat, (f2 - 1) as nat, else_block@, vars);
                }
            }
        },
        WhileInstruction::For(var, block) => {
            if vars.dom().contains(var@) {
                lemma_fuel_mono_repeat(
                    (f1 - 1) as nat,
                    (f2 - 1) as nat,
                    block@,
                    vars[var@] as nat,
                    vars,
                );
            }
        },
        WhileInstruction::While(first_var, second_var, block) => {
            if vars.dom().contains(first_var@) && vars.dom().contains(second_var@)
                && vars[first_var@] < vars[second_var@] {
                lemma_fuel_mono_block((f1 - 1) as nat, (f2 - 1) as nat, block@, vars);
                match run_block((f1 - 1) as nat, block@, vars) {
                    RunOutcome::Done(vars2) => {
                        lemma_fuel_mono_stmt((f1 - 1) as nat, (f2 - 1) as nat, stmt, vars2);
                    },
                    _ => {},
                }
            }
        },
    }
}

/// Fuel monotonicity for blocks; see `lemma_fuel_mono_stmt`.
pub proof fn lemma_fuel_mono_block(f1: nat, f2: nat, stmts: Seq<WhileInstruction>, vars: VarMap)
    requires
        f1 <= f2,
        run_block(f1, stmts, vars) != RunOutcome::OutOfFuel,
    ensures
        run_block(f2, stmts, vars) == run_block(f1, stmts, vars),
    decreases f1,
{
    if stmts.len() > 0 {
        lemma_fuel_mono_stmt((f1 - 1) as nat, (f2 - 1) as nat, stmts[0], vars);
        match run_stmt((f1 - 1) as nat, stmts[0], vars) {
            RunOutcome::Done(vars2) => {
                lemma_fuel_mono_block((f1 - 1) as nat, (f2 - 1) as nat, stmts.skip(1), vars2);
            },
            _ => {},
        }
    }
}

/// Fuel monotonicity for repetition; see `lemma_fuel_mono_stmt`.
pub proof fn lemma_fuel_mono_repeat(
    f1: nat,
    f2: nat,
    stmts: Seq<WhileInstruction>,
    count: nat,
    vars: VarMap,
)
    requires
        f1 <= f2,
        run_repeat(f1, stmts, count, vars) != RunOutcome::OutOfFuel,
    ensures
        run_repeat(f2, stmts, count, vars) == run_repeat(f1, stmts, count, vars),
    decreases f1,
{
    if count > 0 {
        lemma_fuel_mono_block((f1 - 1) as nat, (f2 - 1) as nat, stmts, vars);
        match run_block((f1 - 1) as nat, stmts, vars) {
            RunOutcome::Done(vars2) => {
                lemma_fuel_mono_repeat(
                    (f1 - 1) as nat,
                    (f2 - 1) as nat,
                    stmts,
                    (count - 1) as nat,
                    vars2,
                );
            },
            _ => {},
        }
    }
}

/// The semantics is deterministic: any two fuels that finish a statement
/// give the same outcome. An interpreter result of one kind therefore
/// excludes a semantic outcome of the other kind.
pub proof fn lemma_run_stmt_unique(f1: nat, f2: nat, stmt: WhileInstruction, vars: VarMap)
    requires
        run_stmt(f1, stmt, vars) != RunOutcome::OutOfFuel,
        run_stmt(f2, stmt, vars) != RunOutcome::OutOfFuel,
    ensures
        run_stmt(f1, stmt, vars) == run_stmt(f2, stmt, vars),
{
    if f1 <= f2 {
        lemma_fuel_mono_stmt(f1, f2, stmt, vars);
    } else {
        lemma_fuel_mono_stmt(f2, f1, stmt, vars);
    }
}

/// Determinism for blocks; see `lemma_run_stmt_unique`.
pub proof fn lemma_run_block_unique(f1: nat, f2: nat, stmts: Seq<WhileInstruction>, vars: VarMap)
    requires
        run_block(f1, stmts, vars) != RunOutcome::OutOfFuel,
        run_block(f2, stmts, vars) != RunOutcome::OutOfFuel,
    ensures
        run_block(f1, stmts, vars) == run_block(f2, stmts, vars),
{
    if f1 <= f2 {
        lemma_fuel_mono_block(f1, f2, stmts, vars);
    } else {
        lemma_fuel_mono_block(f2, f1, stmts, vars);
    }
}

/// A predicate on naturals that holds somewhere holds at a least point.
proof fn lemma_least_satisfying(p: spec_fn(nat) -> bool, n: nat)
    requires
        p(n),
    ensures
        exists|k: nat| (#[trigger] p(k)) && forall|j: nat| j < k ==> !(#[trigger] p(j)),
    decreases n,
{
    if exists|j: nat| j < n && #[trigger] p(j) {
        let j = choose|j: nat| j < n && #[trigger] p(j);
        lemma_least_satisfying(p, j);
    } else {
        assert(p(n) && forall|j: nat| j < n ==> !(#[trigger] p(j)));
    }
}

/// The least natural satisfying `p`; meaningful only when one exists.
pub open spec fn least_nat(p: spec_fn(nat) -> bool) -> nat {
    choose|k: nat| (#[trigger] p(k)) && forall|j: nat| j < k ==> !(#[trigger] p(j))
}

/// When `p` holds at `n`, `least_nat(p)` satisfies `p` and is at most `n`.
proof fn lemma_least_nat(p: spec_fn(nat) -> bool, n: nat)
    requires
        p(n),
    ensures
        p(least_nat(p)),
        least_nat(p) <= n,
{
    lemma_least_satisfying(p, n);
    let k = least_nat(p);
    assert(p(k) && forall|j: nat| j < k ==> !(#[trigger] p(j)));
}

/// Fuels on which the statement finishes.
pub open spec fn stmt_finishes(stmt: WhileInstruction, vars: VarMap) -> spec_fn(nat) -> bool {
    |f: nat| run_stmt(f, stmt, vars) != RunOutcome::OutOfFuel
}

/// Fuels on which the block finishes.
pub open spec fn block_finishes(stmts: Seq<WhileInstruction>, vars: VarMap) -> spec_fn(
    nat,
) -> bool {
    |f: nat| run_block(f, stmts, vars) != RunOutcome::OutOfFuel
}

/// The least fuel on which the statement finishes; meaningful only when
/// `term_stmt` holds. It measures how much evaluation work remains, and the
/// interpreter's recursion terminates because it shrinks at every nested
/// evaluation.
pub open spec fn min_fuel_stmt(stmt: WhileInstruction, vars: VarMap) -> nat {
    least_nat(stmt_finishes(stmt, vars))
}

/// The least fuel on which the block finishes; see `min_fuel_stmt`.
pub open spec fn min_fuel_block(stmts: Seq<WhileInstruction>, vars: VarMap) -> nat {
    least_nat(block_finishes(stmts, vars))
}

/// Any sufficient fuel bounds `min_fuel_stmt` from above, and the least
/// fuel is itself sufficient.
pub proof fn lemma_min_fuel_stmt_le(stmt: WhileInstruction, vars: VarMap, f: nat)
    requires
        run_stmt(f, stmt, vars) != RunOutcome::OutOfFuel,
    ensures
        min_fuel_stmt(stmt, vars) <= f,
        run_stmt(min_fuel_stmt(stmt, vars), stmt, vars) != RunOutcome::OutOfFuel,
{
    let p = stmt_finishes(stmt, vars);
    assert(p(f));
    lemma_least_nat(p, f);
    assert(p(least_nat(p)));
}

/// Any sufficient fuel bounds `min_fuel_block` from above, and the least
/// fuel is itself sufficient.
pub proof fn lemma_min_fuel_block_le(stmts: Seq<WhileInstruction>, vars: VarMap, f: nat)
    requires
        run_block(f, stmts, vars) != RunOutcome::OutOfFuel,
    ensures
        min_fuel_block(stmts, vars) <= f,
        run_block(min_fuel_block(stmts, vars), stmts, vars) != RunOutcome::OutOfFuel,
{
    let p = block_finishes(stmts, vars);
    assert(p(f));
    lemma_least_nat(p, f);
    assert(p(least_nat(p)));
}


impl WhileProgram {
    /// Builds a program from its statement list.
    pub fn from_vec(instructions: Vec<WhileInstruction>) -> (program: Self)
        ensures
            program@ == instructions@,
    {
        WhileProgram { instructions }
    }

    /// Runs every statement of the block, in order, against `state`. The
    /// result is exactly an outcome of the semantics `run_block` on the
    /// store the call found: the run's final store on `Ok`, or the fault
    /// the run stopped on, with the store as the fault left it.
    pub fn run(&self, state: &mut WhileState) -> (outcome: Result<(), WhileError>)
        requires
            old(state).wf(),
            term_block(self@, old(state)@),
        ensures
            final(state).wf(),
            match outcome {
                Ok(()) => exists|f: nat|
                    (#[trigger] run_block(f, self@, old(state)@)) == RunOutcome::Done(
                        final(state)@,
                    ),
                Err(e) => exists|f: nat|
                    (#[trigger] run_block(f, self@, old(state)@)) == RunOutcome::Fault(
                        e@,
                        final(state)@,
                    ),
            },
        decreases min_fuel_block(self@, old(state)@),
    {
        let ghost m0 = state@;
        proof {
            let f0 = choose|f: nat|
                (#[trigger] run_block(f, self@, m0)) != RunOutcome::OutOfFuel;
            lemma_min_fuel_block_le(self@, m0, f0);
            assert(self@.skip(0) =~= self@);
        }
        let ghost mut fuel_left: nat = min_fuel_block(self@, m0);
        let mut i: usize = 0;
        while i < self.instructions.len()
            invariant
                state.wf(),
                i <= self.instructions@.len(),
                run_block(fuel_left, self@.skip(i as int), state@) != RunOutcome::OutOfFuel,
                fuel_left <= min_fuel_block(self@, old(state)@),
                forall|f: nat|
                    (#[trigger] run_block(f, self@.skip(i as int), state@))
                        != RunOutcome::OutOfFuel ==> exists|h: nat|
                        run_block(h, self@, old(state)@) == run_block(
                            f,
                            self@.skip(i as int),
                            state@,
                        ),
            decreases self.instructions@.len() - i,
        {
            let ghost m_i = state@;
            let ghost rest = self@.skip(i as int);
            proof {
                assert(rest.len() > 0);
                assert(fuel_left >= 1);
                assert(rest[0] == self@[i as int]);
                assert(run_stmt((fuel_left - 1) as nat, self@[i as int], m_i)
                    != RunOutcome::OutOfFuel);
                assert(term_stmt(self@[i as int], m_i));
                lemma_min_fuel_stmt_le(self@[i as int], m_i, (fuel_left - 1) as nat);
            }
            let instruction = &self.instructions[i];
            match state.do_instruction(instruction) {
                Ok(()) => {
                    proof {
                        let fw = choose|f: nat|
                            (#[trigger] run_stmt(f, self@[i as int], m_i)) == RunOutcome::Done(
                                state@,
                            );
                        let t: nat = if fw >= fuel_left - 1 {
                            fw
                        } else {
                            (fuel_left - 1) as nat
                        };
                        lemma_fuel_mono_stmt(fw, t, self@[i as int], m_i);
                        lemma_fuel_mono_stmt((fuel_left - 1) as nat, t, self@[i as int], m_i);
                        assert(run_stmt((fuel_left - 1) as nat, self@[i as int], m_i)
                            == RunOutcome::Done(state@));
                        assert(rest.skip(1) =~= self@.skip(i + 1));
                        assert(run_block(fuel_left, rest, m_i) == run_block(
                            (fuel_left - 1) as nat,
                            self@.skip(i + 1),
                            state@,
                        ));
                        assert forall|f: nat|
                            (#[trigger] run_block(f, self@.skip(i + 1), state@))
                                != RunOutcome::OutOfFuel implies exists|h: nat|
                            run_block(h, self@, old(state)@) == run_block(
                                f,
                                self@.skip(i + 1),
                                state@,
                            ) by {
                            let t2: nat = if f >= fw { f } else { fw };
                            lemma_fuel_mono_stmt(fw, t2, self@[i as int], m_i);
                            lemma_fuel_mono_block(f, t2, self@.skip(i + 1), state@);
                            assert(run_block(t2 + 1, rest, m_i) == run_block(
                                f,
                                self@.skip(i + 1),
                                state@,
                            ));
                        }
                        fuel_left = (fuel_left - 1) as nat;
                    }
                    i += 1;
                },
                Err(e) => {
                    proof {
                        let fw = choose|f: nat|
                            (#[trigger] run_stmt(f, self@[i as int], m_i)) == RunOutcome::Fault(
                                e@,
                                state@,
                            );
                        assert(run_block(fw + 1, rest, m_i) == RunOutcome::Fault(e@, state@));
                    }
                    return Err(e);
                },
            }
        }
        proof {
            let ghost done = self@.skip(self.instructions@.len() as int);
            assert(done.len() == 0);
            assert(run_block(1, done, state@) == RunOutcome::Done(state@));
        }
        Ok(())
    }
}

impl WhileState {
    /// Executes one statement against the store. The result is exactly an
    /// outcome of the semantics `run_stmt` on the store the call found.
    pub fn do_instruction(&mut self, instruction: &WhileInstruction) -> (outcome: Result<
        (),
        WhileError,
    >)
        requires
            old(self).wf(),
            term_stmt(*instruction, old(self)@),
        ensures
            final(self).wf(),
            match outcome {
                Ok(()) => exists|f: nat|
                    (#[trigger] run_stmt(f, *instruction, old(self)@)) == RunOutcome::Done(
                        final(self)@,
                    ),
                Err(e) => exists|f: nat|
                    (#[trigger] run_stmt(f, *instruction, old(self)@)) == RunOutcome::Fault(
                        e@,
                        final(self)@,
                    ),
            },
        decreases min_fuel_stmt(*instruction, old(self)@),
    {
        let ghost stmt = *instruction;
        let ghost m0 = self@;
        match instruction {
            WhileInstruction::Assign(var, assign) => match assign {
                AssignType::Zero => {
                    self.insert(var.clone(), 0);
                    proof {
                        assert(run_stmt(1, stmt, m0) == RunOutcome::Done(self@));
                    }
                    Ok(())
                },
                AssignType::Variable(other) => {
                    let looked = match self.get(other.as_str()) {
                        Some(v) => Some(*v),
                        None => None,
                    };
                    match looked {
                        Some(value) => {
                            self.insert(var.clone(), value);
                            proof {
                                assert(run_stmt(1, stmt, m0) == RunOutcome::Done(self@));
                            }
                            Ok(())
                        },
                        None => {
                            proof {
                                assert(run_stmt(1, stmt, m0) == RunOutcome::Fault(
                                    WhileFault::Undefined(other@),
                                    self@,
                                ));
                            }
                            Err(WhileError::UndefinedVariable(other.clone()))
                        },
                    }
                },
                AssignType::VariableIncremented(other) => {
                    let looked = match self.get(other.as_str()) {
                        Some(v) => Some(*v),
                        None => None,
                    };
                    match looked {
                        Some(value) => {
                            if value < usize::MAX {
                                self.insert(var.clone(), value + 1);
                                proof {
                                    assert(run_stmt(1, stmt, m0) == RunOutcome::Done(self@));
                                }
                                Ok(())
                            } else {
                                proof {
                                    assert(run_stmt(1, stmt, m0) == RunOutcome::Fault(
                                        WhileFault::Overflow(other@),
                                        self@,
                                    ));
                                }
                                Err(WhileError::ValueOverflow(other.clone()))
                            }
                        },
                        None => {
                            proof {
                                assert(run_stmt(1, stmt, m0) == RunOutcome::Fault(
                                    WhileFault::Undefined(other@),
                                    self@,
                                ));
                            }
                            Err(WhileError::UndefinedVariable(other.clone()))
                        },
                    }
                },
            },
            WhileInstruction::If(first_var, second_var, if_block, else_block) => {
                let va = match self.get(first_var.as_str()) {
                    Some(v) => *v,
                    None => {
                        proof {
                            assert(run_stmt(1, stmt, m0) == RunOutcome::Fault(
                                WhileFault::Undefined(first_var@),
                                self@,
                            ));
                        }
                        return Err(WhileError::UndefinedVariable(first_var.clone()));
                    },
                };
                let vb = match self.get(second_var.as_str()) {
                    Some(v) => *v,
                    None => {
                        proof {
                            assert(run_stmt(1, stmt, m0) == RunOutcome::Fault(
                                WhileFault::Undefined(second_var@),
                                self@,
                            ));
                        }
                        return Err(WhileError::UndefinedVariable(second_var.clone()));
                    },
                };
                let ghost fm = min_fuel_stmt(stmt, m0);
                proof {
                    let f0 = choose|f: nat|
                        (#[trigger] run_stmt(f, stmt, m0)) != RunOutcome::OutOfFuel;
                    lemma_min_fuel_stmt_le(stmt, m0, f0);
                    assert(fm >= 1);
                }
                if va < vb {
                    proof {
                        assert(run_stmt(fm, stmt, m0) == run_block(
                            (fm - 1) as nat,
                            if_block@,
                            m0,
                        ));
                        assert(term_block(if_block@, m0));
                        lemma_min_fuel_block_le(if_block@, m0, (fm - 1) as nat);
                    }
                    match if_block.run(self) {
                        Ok(()) => {
                            proof {
                                let fw = choose|f: nat|
                                    (#[trigger] run_block(f, if_block@, m0))
                                        == RunOutcome::Done(self@);
                                assert(run_stmt(fw + 1, stmt, m0) == RunOutcome::Done(self@));
                            }
                            Ok(())
                        },
                        Err(e) => {
                            proof {
                                let fw = choose|f: nat|
                                    (#[trigger] run_block(f, if_block@, m0))
                                        == RunOutcome::Fault(e@, self@);
                                assert(run_stmt(fw + 1, stmt, m0) == RunOutcome::Fault(
                                    e@,
                                    self@,
                                ));
                            }
                            Err(e)
                        },
                    }
                } else {
                    proof {
                        assert(run_stmt(fm, stmt, m0) == run_block(
                            (fm - 1) as nat,
                            else_block@,
                            m0,
                        ));
                        assert(term_block(else_block@, m0));
                        lemma_min_fuel_block_le(else_block@, m0, (fm - 1) as nat);
                    }
                    match else_block.run(self) {
                        Ok(()) => {
                            proof {
                                let fw = choose|f: nat|
                                    (#[trigger] run_block(f, else_block@, m0))
                                        == RunOutcome::Done(self@);
                                assert(run_stmt(fw + 1, stmt, m0) == RunOutcome::Done(self@));
                            }
                            Ok(())
                        },
                        Err(e) => {
                            proof {
                                let fw = choose|f: nat|
                                    (#[trigger] run_block(f, else_block@, m0))
                                        == RunOutcome::Fault(e@, self@);
                                assert(run_stmt(fw + 1, stmt, m0) == RunOutcome::Fault(
                                    e@,
                                    self@,
                                ));
                            }
                            Err(e)
                        },
                    }
                }
            },
            WhileInstruction::For(var, block) => {
                let bound = match self.get(var.as_str()) {
                    Some(v) => *v,
                    None => {
                        proof {
                            assert(run_stmt(1, stmt, m0) == RunOutcome::Fault(
                                WhileFault::Undefined(var@),
                                self@,
                            ));
                        }
                        return Err(WhileError::UndefinedVariable(var.clone()));
                    },
                };
                let ghost fm = min_fuel_stmt(stmt, m0);
                proof {
                    let f0 = choose|f: nat|
                        (#[trigger] run_stmt(f, stmt, m0)) != RunOutcome::OutOfFuel;
                    lemma_min_fuel_stmt_le(stmt, m0, f0);
                    assert(fm >= 1);
                    assert(run_stmt(fm, stmt, m0) == run_repeat(
                        (fm - 1) as nat,
                        block@,
                        bound as nat,
                        m0,
                    ));
                    assert forall|f: nat|
                        (#[trigger] run_repeat(f, block@, (bound - 0) as nat, m0))
                            != RunOutcome::OutOfFuel implies exists|h: nat|
                        run_stmt(h, stmt, m0) == run_repeat(
                            f,
                            block@,
                            (bound - 0) as nat,
                            m0,
                        ) by {
                        assert(run_stmt(f + 1, stmt, m0) == run_repeat(
                            f,
                            block@,
                            bound as nat,
                            m0,
                        ));
                    }
                }
                let ghost mut fuel_left: nat = (fm - 1) as nat;
                let mut i: usize = 0;
                while i < bound
                    invariant
                        self.wf(),
                        i <= bound,
                        stmt == *instruction,
                        m0 == old(self)@,
                        run_repeat(fuel_left, block@, (bound - i) as nat, self@)
                            != RunOutcome::OutOfFuel,
                        fuel_left < min_fuel_stmt(*instruction, old(self)@),
                        forall|f: nat|
                            (#[trigger] run_repeat(f, block@, (bound - i) as nat, self@))
                                != RunOutcome::OutOfFuel ==> exists|h: nat|
                                run_stmt(h, *instruction, old(self)@) == run_repeat(
                                    f,
                                    block@,
                                    (bound - i) as nat,
                                    self@,
                                ),
                    decreases bound - i,
                {
                    let ghost m_i = self@;
                    proof {
                        assert(fuel_left >= 1);
                        assert(run_block((fuel_left - 1) as nat, block@, m_i)
                            != RunOutcome::OutOfFuel);
                        assert(term_block(block@, m_i));
                        lemma_min_fuel_block_le(block@, m_i, (fuel_left - 1) as nat);
                    }
                    match block.run(self) {
                        Ok(()) => {
                            proof {
                                let fw = choose|f: nat|
                                    (#[trigger] run_block(f, block@, m_i)) == RunOutcome::Done(
                                        self@,
                                    );
                                let t: nat = if fw >= fuel_left - 1 {
                                    fw
                                } else {
                                    (fuel_left - 1) as nat
                                };
                                lemma_fuel_mono_block(fw, t, block@, m_i);
                                lemma_fuel_mono_block((fuel_left - 1) as nat, t, block@, m_i);
                                assert(run_block((fuel_left - 1) as nat, block@, m_i)
                                    == RunOutcome::Done(self@));
                                assert(run_repeat(fuel_left, block@, (bound - i) as nat, m_i)
                                    == run_repeat(
                                    (fuel_left - 1) as nat,
                                    block@,
                                    (bound - i - 1) as nat,
                                    self@,
                                ));
                                assert forall|f: nat|
                                    (#[trigger] run_repeat(
                                        f,
                                        block@,
                                        (bound - i - 1) as nat,
                                        self@,
                                    )) != RunOutcome::OutOfFuel implies exists|h: nat|
                                    run_stmt(h, *instruction, old(self)@) == run_repeat(
                                        f,
                                        block@,
                                        (bound - i - 1) as nat,
                                        self@,
                                    ) by {
                                    let t2: nat = if f >= fw {
                                        f
                                    } else {
                                        fw
                                    };
                                    lemma_fuel_mono_block(fw, t2, block@, m_i);
                                    lemma_fuel_mono_repeat(
                                        f,
                                        t2,
                                        block@,
                                        (bound - i - 1) as nat,
                                        self@,
                                    );
                                    assert(run_repeat(t2 + 1, block@, (bound - i) as nat, m_i)
                                        == run_repeat(
                                        f,
                                        block@,
                                        (bound - i - 1) as nat,
                                        self@,
                                    ));
                                }
                                fuel_left = (fuel_left - 1) as nat;
                            }
                            i += 1;
                        },
                        Err(e) => {
                            proof {
                                let fw = choose|f: nat|
                                    (#[trigger] run_block(f, block@, m_i))
                                        == RunOutcome::Fault(e@, self@);
                                assert(run_repeat(fw + 1, block@, (bound - i) as nat, m_i)
                                    == RunOutcome::Fault(e@, self@));
                            }
                            return Err(e);
                        },
                    }
                }
                proof {
                    assert(run_repeat(1, block@, (bound - i) as nat, self@)
                        == RunOutcome::Done(self@));
                }
                Ok(())
            },
            WhileInstruction::While(first_var, second_var, block) => {
                let ghost fm = min_fuel_stmt(stmt, m0);
                proof {
                    let f0 = choose|f: nat|
                        (#[trigger] run_stmt(f, stmt, m0)) != RunOutcome::OutOfFuel;
                    lemma_min_fuel_stmt_le(stmt, m0, f0);
                    assert forall|f: nat|
                        (#[trigger] run_stmt(f, stmt, self@)) != RunOutcome::OutOfFuel
                        implies exists|h: nat|
                        run_stmt(h, *instruction, old(self)@) == run_stmt(f, stmt, self@) by {
                        assert(run_stmt(f, *instruction, old(self)@) == run_stmt(
                            f,
                            stmt,
                            self@,
                        ));
                    }
                }
                let ghost mut fuel_left: nat = fm;
                loop
                    invariant
                        self.wf(),
                        stmt == *instruction,
                        stmt == WhileInstruction::While(*first_var, *second_var, *block),
                        m0 == old(self)@,
                        run_stmt(fuel_left, stmt, self@) != RunOutcome::OutOfFuel,
                        fuel_left <= min_fuel_stmt(*instruction, old(self)@),
                        forall|f: nat|
                            (#[trigger] run_stmt(f, stmt, self@)) != RunOutcome::OutOfFuel
                                ==> exists|h: nat|
                                run_stmt(h, *instruction, old(self)@) == run_stmt(
                                    f,
                                    stmt,
                                    self@,
                                ),
                    decreases fuel_left,
                {
                    let ghost m_i = self@;
                    let va = match self.get(first_var.as_str()) {
                        Some(v) => *v,
                        None => {
                            proof {
                                assert(run_stmt(1, stmt, m_i) == RunOutcome::Fault(
                                    WhileFault::Undefined(first_var@),
                                    self@,
                                ));
                            }
                            return Err(WhileError::UndefinedVariable(first_var.clone()));
                        },
                    };
                    let vb = match self.get(second_var.as_str()) {
                        Some(v) => *v,
                        None => {
                            proof {
                                assert(run_stmt(1, stmt, m_i) == RunOutcome::Fault(
                                    WhileFault::Undefined(second_var@),
                                    self@,
                                ));
                            }
                            return Err(WhileError::UndefinedVariable(second_var.clone()));
                        },
                    };
                    if va >= vb {
                        proof {
                            assert(run_stmt(1, stmt, m_i) == RunOutcome::Done(self@));
                        }
                        return Ok(());
                    }
                    proof {
                        assert(fuel_left >= 1);
                        assert(run_stmt(fuel_left, stmt, m_i) == match run_block(
                            (fuel_left - 1) as nat,
                            block@,
                            m_i,
                        ) {
                            RunOutcome::Done(vars2) => run_stmt(
                                (fuel_left - 1) as nat,
                                stmt,
                                vars2,
                            ),
                            other => other,
                        });
                        assert(run_block((fuel_left - 1) as nat, block@, m_i)
                            != RunOutcome::OutOfFuel);
                        assert(term_block(block@, m_i));
                        lemma_min_fuel_block_le(block@, m_i, (fuel_left - 1) as nat);
                    }
                    match block.run(self) {
                        Ok(()) => {
                            proof {
                                let fw = choose|f: nat|
                                    (#[trigger] run_block(f, block@, m_i)) == RunOutcome::Done(
                                        self@,
                                    );
                                let t: nat = if fw >= fuel_left - 1 {
                                    fw
                                } else {
                                    (fuel_left - 1) as nat
                                };
                                lemma_fuel_mono_block(fw, t, block@, m_i);
                                lemma_fuel_mono_block((fuel_left - 1) as nat, t, block@, m_i);
                                assert(run_block((fuel_left - 1) as nat, block@, m_i)
                                    == RunOutcome::Done(self@));
                                assert(run_stmt(fuel_left, stmt, m_i) == run_stmt(
                                    (fuel_left - 1) as nat,
                                    stmt,
                                    self@,
                                ));
                                assert forall|f: nat|
                                    (#[trigger] run_stmt(f, stmt, self@))
                                        != RunOutcome::OutOfFuel implies exists|h: nat|
                                    run_stmt(h, *instruction, old(self)@) == run_stmt(
                                        f,
                                        stmt,
                                        self@,
                                    ) by {
                                    let t2: nat = if f >= fw {
                                        f
                                    } else {
                                        fw
                                    };
                                    lemma_fuel_mono_block(fw, t2, block@, m_i);
                                    lemma_fuel_mono_stmt(f, t2, stmt, self@);
                                    assert(run_stmt(t2 + 1, stmt, m_i) == run_stmt(
                                        f,
                                        stmt,
                                        self@,
                                    ));
                                }
                                fuel_left = (fuel_left - 1) as nat;
                            }
                        },
                        Err(e) => {
                            proof {
                                let fw = choose|f: nat|
                                    (#[trigger] run_block(f, block@, m_i))
                                        == RunOutcome::Fault(e@, self@);
                                assert(run_stmt(fw + 1, stmt, m_i) == RunOutcome::Fault(
                                    e@,
                                    self@,
                                ));
                            }
                            return Err(e);
                        },
                    }
                }
            },
        }
    }
}


/// Assigning zero always binds the target to zero, whatever the store held
/// for it before, on every sufficient fuel.
pub proof fn lemma_assign_zero(f: nat, var: String, vars: VarMap)
    requires
        f >= 1,
    ensures
        run_stmt(f, WhileInstruction::Assign(var, AssignType::Zero), vars) == RunOutcome::Done(
            vars.insert(var@, 0),
        ),
        vars.insert(var@, 0)[var@] == 0,
{
}

/// Assigning zero twice in a row comes to the same store as assigning it
/// once: the second run returns its own input store.
pub proof fn lemma_assign_zero_idempotent(f1: nat, f2: nat, var: String, vars: VarMap)
    requires
        f1 >= 1,
        f2 >= 1,
    ensures
        ({
            let once = vars.insert(var@, 0);
            &&& run_stmt(f1, WhileInstruction::Assign(var, AssignType::Zero), vars)
                == RunOutcome::Done(once)
            &&& run_stmt(f2, WhileInstruction::Assign(var, AssignType::Zero), once)
                == RunOutcome::Done(once)
        }),
{
    assert(vars.insert(var@, 0).insert(var@, 0) =~= vars.insert(var@, 0));
}

/// An incremented copy binds the target to one more than the source; when
/// the source is unbound the statement faults with that source's name and
/// the store unchanged.
pub proof fn lemma_assign_incremented(f: nat, var: String, other: String, vars: VarMap)
    requires
        f >= 1,
    ensures
        vars.dom().contains(other@) && vars[other@] < usize::MAX ==> run_stmt(
            f,
            WhileInstruction::Assign(var, AssignType::VariableIncremented(other)),
            vars,
        ) == RunOutcome::Done(vars.insert(var@, (vars[other@] + 1) as usize)),
        !vars.dom().contains(other@) ==> run_stmt(
            f,
            WhileInstruction::Assign(var, AssignType::VariableIncremented(other)),
            vars,
        ) == RunOutcome::Fault(WhileFault::Undefined(other@), vars),
{
}

/// The conditional compares with strict less-than, so two equal values
/// select the else block.
pub proof fn lemma_if_equal_selects_else(
    f: nat,
    first_var: String,
    second_var: String,
    if_block: Box<WhileProgram>,
    else_block: Box<WhileProgram>,
    vars: VarMap,
)
    requires
        vars.dom().contains(first_var@),
        vars.dom().contains(second_var@),
        vars[first_var@] == vars[second_var@],
    ensures
        run_stmt(
            f + 1,
            WhileInstruction::If(first_var, second_var, if_block, else_block),
            vars,
        ) == run_block(f, else_block@, vars),
{
}

/// A bounded loop reads its bound once, at entry: the number of iterations
/// is the value the store holds when the loop starts, whatever the body
/// later does to the bound variable.
pub proof fn lemma_for_bound_captured(f: nat, var: String, block: Box<WhileProgram>, vars: VarMap)
    requires
        vars.dom().contains(var@),
    ensures
        run_stmt(f + 1, WhileInstruction::For(var, block), vars) == run_repeat(
            f,
            block@,
            vars[var@] as nat,
            vars,
        ),
{
}

/// An unbounded loop re-reads its condition before every iteration: with
/// the condition true it runs the body once and then the whole loop again on
/// the body's store; with it false it ends at once, store unchanged.
pub proof fn lemma_while_unrolls(
    f: nat,
    first_var: String,
    second_var: String,
    block: Box<WhileProgram>,
    vars: VarMap,
)
    requires
        vars.dom().contains(first_var@),
        vars.dom().contains(second_var@),
    ensures
        vars[first_var@] < vars[second_var@] ==> run_stmt(
            f + 1,
            WhileInstruction::While(first_var, second_var, block),
            vars,
        ) == (match run_block(f, block@, vars) {
            RunOutcome::Done(vars2) => run_stmt(
                f,
                WhileInstruction::While(first_var, second_var, block),
                vars2,
            ),
            other => other,
        }),
        vars[first_var@] >= vars[second_var@] ==> run_stmt(
            f + 1,
            WhileInstruction::While(first_var, second_var, block),
            vars,
        ) == RunOutcome::Done(vars),
{
}

/// A bounded loop whose bound reads zero runs no iteration: it is a no-op,
/// whatever its body holds.
pub proof fn lemma_repeat_zero_noop(f: nat, var: String, block: Box<WhileProgram>, vars: VarMap)
    requires
        f >= 2,
        vars.dom().contains(var@),
        vars[var@] == 0,
    ensures
        run_stmt(f, WhileInstruction::For(var, block), vars) == RunOutcome::Done(vars),
{
    assert(run_repeat((f - 1) as nat, block@, 0, vars) == RunOutcome::Done(vars));
}


} // verus!
