//! The machine that runs a parsed program: a memory of byte cells with one
//! pointer, a queue of input bytes and a buffer of output bytes.

use crate::parser::{Command, Iteration, Node, Operator, Program};
use vstd::prelude::*;

verus! {

/// How many cells the memory of a new machine has.
pub const MEMORY_SIZE: usize = 256;

/// The machine. `input` is taken from its back. `steps` is how many more
/// times a loop may go round.
#[derive(Debug, Clone, PartialEq, Eq)]
pub struct State {
    pub memory: Vec<u8>,
    pub pointer: usize,
    pub input: Vec<u8>,
    pub output: Vec<u8>,
    pub steps: u64,
}

/// The machine as a mathematical value.
pub struct Machine {
    pub memory: Seq<u8>,
    pub pointer: int,
    pub input: Seq<u8>,
    pub output: Seq<u8>,
    pub steps: nat,
}

impl View for State {
    type V = Machine;

    open spec fn view(&self) -> Machine {
        Machine {
            memory: self.memory@,
            pointer: self.pointer as int,
            input: self.input@,
            output: self.output@,
            steps: self.steps as nat,
        }
    }
}

/// Why a run ended before the program did.
#[derive(Debug, Clone, Copy, PartialEq, Eq, Structural)]
pub enum Fault {
    /// A move would have taken the pointer out of the range of its type.
    PointerOverflow,
    /// A cell was read or written while the pointer stood outside the memory.
    OutOfBounds,
    /// A loop was to go round once more than `steps` allowed.
    StepLimit,
}

/// How a run ended: the machine as it was left, and the fault if there was
/// one.
pub struct Run {
    pub machine: Machine,
    pub fault: Option<Fault>,
}

impl Machine {
    /// Whether the pointer stands on a cell of the memory.
    pub open spec fn on_cell(self) -> bool {
        0 <= self.pointer < self.memory.len()
    }

    /// The run that ends well with this machine.
    pub open spec fn done(self) -> Run {
        Run { machine: self, fault: None }
    }

    /// The run that ends with this machine and a fault.
    pub open spec fn failed(self, fault: Fault) -> Run {
        Run { machine: self, fault: Some(fault) }
    }
}

/// A cell after `amount` was added to it, wrapping within a byte.
pub open spec fn raised(cell: u8, amount: usize) -> u8 {
    ((cell + amount % 256) % 256) as u8
}

/// A cell after `amount` was taken from it, wrapping within a byte.
pub open spec fn lowered(cell: u8, amount: usize) -> u8 {
    ((cell - amount % 256) % 256) as u8
}

/// What one operator does. The arithmetic wraps within a byte. The pointer
/// may stand outside the memory, but no cell is read or written there, and
/// it cannot leave the range of its type. Input is taken from the back of
/// the queue, and reads as zero once the queue is empty.
pub open spec fn run_operator(operator: Operator, machine: Machine) -> Run {
    match operator {
        Operator::Increment(amount) => if machine.on_cell() {
            Machine {
                memory: machine.memory.update(
                    machine.pointer,
                    raised(machine.memory[machine.pointer], amount),
                ),
                ..machine
            }.done()
        } else {
            machine.failed(Fault::OutOfBounds)
        },
        Operator::Decrement(amount) => if machine.on_cell() {
            Machine {
                memory: machine.memory.update(
                    machine.pointer,
                    lowered(machine.memory[machine.pointer], amount),
                ),
                ..machine
            }.done()
        } else {
            machine.failed(Fault::OutOfBounds)
        },
        Operator::Right(amount) => if machine.pointer + amount <= usize::MAX {
            Machine { pointer: machine.pointer + amount, ..machine }.done()
        } else {
            machine.failed(Fault::PointerOverflow)
        },
        Operator::Left(amount) => if machine.pointer - amount >= 0 {
            Machine { pointer: machine.pointer - amount, ..machine }.done()
        } else {
            machine.failed(Fault::PointerOverflow)
        },
        Operator::PutChar => if machine.on_cell() {
            Machine {
                output: machine.output.push(machine.memory[machine.pointer]),
                ..machine
            }.done()
        } else {
            machine.failed(Fault::OutOfBounds)
        },
        Operator::ReadChar => if machine.on_cell() {
            if machine.input.len() > 0 {
                Machine {
                    memory: machine.memory.update(machine.pointer, machine.input.last()),
                    input: machine.input.drop_last(),
                    ..machine
                }.done()
            } else {
                Machine { memory: machine.memory.update(machine.pointer, 0u8), ..machine }.done()
            }
        } else {
            machine.failed(Fault::OutOfBounds)
        },
    }
}

/// What one node does: an operator, or a loop.
pub open spec fn run_node(node: Node, machine: Machine) -> Run
    decreases machine.steps, node, 0int,
{
    match node {
        Node::Operator(operator) => run_operator(operator, machine),
        Node::Loop(body) => run_loop(body, machine),
    }
}

/// What a loop does: as long as the current cell is not zero, it spends one
/// step and runs its body. It ends with a fault where the pointer stands
/// outside the memory, where no step is left, or where the body ends with
/// one.
pub open spec fn run_loop(body: Seq<Node>, machine: Machine) -> Run
    decreases machine.steps, body, body.len() + 1,
{
    if !machine.on_cell() {
        machine.failed(Fault::OutOfBounds)
    } else if machine.memory[machine.pointer] == 0 {
        machine.done()
    } else if machine.steps == 0 {
        machine.failed(Fault::StepLimit)
    } else {
        let once = run_from(body, 0, Machine { steps: (machine.steps - 1) as nat, ..machine });
        if once.fault is Some || once.machine.steps >= machine.steps {
            once
        } else {
            run_loop(body, once.machine)
        }
    }
}

/// What the nodes from node `i` on do, one after the other, up to the first
/// fault.
pub open spec fn run_from(nodes: Seq<Node>, i: int, machine: Machine) -> Run
    decreases machine.steps, nodes, nodes.len() - i,
{
    if 0 <= i < nodes.len() {
        let first = run_node(nodes[i], machine);
        if first.fault is Some || first.machine.steps > machine.steps {
            first
        } else {
            run_from(nodes, i + 1, first.machine)
        }
    } else {
        machine.done()
    }
}

/// What a program does.
pub open spec fn run_program(nodes: Seq<Node>, machine: Machine) -> Run {
    run_from(nodes, 0, machine)
}

/// A run leaves no more steps than it found.
pub proof fn lemma_run_node_spends(node: Node, machine: Machine)
    ensures
        run_node(node, machine).machine.steps <= machine.steps,
    decreases machine.steps, node, 0int,
{
    match node {
        Node::Operator(operator) => {},
        Node::Loop(body) => lemma_run_loop_spends(body, machine),
    }
}

/// A loop leaves no more steps than it found.
pub proof fn lemma_run_loop_spends(body: Seq<Node>, machine: Machine)
    ensures
        run_loop(body, machine).machine.steps <= machine.steps,
    decreases machine.steps, body, body.len() + 1,
{
    if machine.on_cell() && machine.memory[machine.pointer] != 0 && machine.steps > 0 {
        let entered = Machine { steps: (machine.steps - 1) as nat, ..machine };
        lemma_run_from_spends(body, 0, entered);
        let once = run_from(body, 0, entered);
        if once.fault is None {
            lemma_run_loop_spends(body, once.machine);
        }
    }
}

/// A list of nodes leaves no more steps than it found.
pub proof fn lemma_run_from_spends(nodes: Seq<Node>, i: int, machine: Machine)
    ensures
        run_from(nodes, i, machine).machine.steps <= machine.steps,
    decreases machine.steps, nodes, nodes.len() - i,
{
    if 0 <= i < nodes.len() {
        lemma_run_node_spends(nodes[i], machine);
        let first = run_node(nodes[i], machine);
        if first.fault is None {
            lemma_run_from_spends(nodes, i + 1, first.machine);
        }
    }
}

/// Whether a machine can have come from another by a run: the memory has
/// the same number of cells, the output has grown at its end only, and the
/// input has shrunk at its end only.
pub open spec fn follows(after: Machine, before: Machine) -> bool {
    &&& after.memory.len() == before.memory.len()
    &&& before.output.is_prefix_of(after.output)
    &&& after.input.is_prefix_of(before.input)
}

/// The machine that a node leaves follows the one it found.
pub proof fn lemma_run_node_follows(node: Node, machine: Machine)
    ensures
        follows(run_node(node, machine).machine, machine),
    decreases machine.steps, node, 0int,
{
    match node {
        Node::Operator(operator) => {},
        Node::Loop(body) => lemma_run_loop_follows(body, machine),
    }
}

/// The machine that a loop leaves follows the one it found.
pub proof fn lemma_run_loop_follows(body: Seq<Node>, machine: Machine)
    ensures
        follows(run_loop(body, machine).machine, machine),
    decreases machine.steps, body, body.len() + 1,
{
    if machine.on_cell() && machine.memory[machine.pointer] != 0 && machine.steps > 0 {
        let entered = Machine { steps: (machine.steps - 1) as nat, ..machine };
        lemma_run_from_follows(body, 0, entered);
        let once = run_from(body, 0, entered);
        if once.fault is None && once.machine.steps < machine.steps {
            lemma_run_loop_follows(body, once.machine);
        }
    }
}

/// The machine that a list of nodes leaves follows the one it found.
pub proof fn lemma_run_from_follows(nodes: Seq<Node>, i: int, machine: Machine)
    ensures
        follows(run_from(nodes, i, machine).machine, machine),
    decreases machine.steps, nodes, nodes.len() - i,
{
    if 0 <= i < nodes.len() {
        lemma_run_node_follows(nodes[i], machine);
        let first = run_node(nodes[i], machine);
        if first.fault is None && first.machine.steps <= machine.steps {
            lemma_run_from_follows(nodes, i + 1, first.machine);
        }
    }
}

/// What can be run on a machine.
pub trait Interpret {
    /// What running this does to a machine.
    spec fn run(&self, machine: Machine) -> Run;

    /// Runs this on the machine. The machine is left as the run left it,
    /// also where the run ended with a fault.
    fn interpret(&self, state: &mut State) -> (outcome: Result<(), Fault>)
        ensures
            final(state)@ == self.run(old(state)@).machine,
            outcome == match self.run(old(state)@).fault {
                None => Ok::<(), Fault>(()),
                Some(fault) => Err(fault),
            },
    ;
}

impl State {
    /// A machine with all cells at zero, the pointer on the first cell, no
    /// output yet, and as many steps as the counter holds.
    pub fn new(input: Vec<u8>) -> (state: Self)
        ensures
            state@ == (Machine {
                memory: Seq::new(MEMORY_SIZE as nat, |i: int| 0u8),
                pointer: 0,
                input: input@,
                output: Seq::empty(),
                steps: u64::MAX as nat,
            }),
    {
        let state = Self {
            memory: vec![0; MEMORY_SIZE],
            pointer: 0,
            input,
            output: Vec::new(),
            steps: u64::MAX,
        };
        assert(state.memory@ =~= Seq::new(MEMORY_SIZE as nat, |i: int| 0u8));
        assert(state.output@ =~= Seq::empty());
        state
    }
}

impl Interpret for Operator {
    open spec fn run(&self, machine: Machine) -> Run {
        run_operator(*self, machine)
    }

    fn interpret(&self, state: &mut State) -> (outcome: Result<(), Fault>) {
        match self {
            Operator::Increment(v) => {
                if state.pointer >= state.memory.len() {
                    return Err(Fault::OutOfBounds);
                }
                let cell = state.memory[state.pointer];
                state.memory.set(state.pointer, cell.wrapping_add((*v % 256) as u8));
            },
            Operator::Decrement(v) => {
                if state.pointer >= state.memory.len() {
                    return Err(Fault::OutOfBounds);
                }
                let cell = state.memory[state.pointer];
                state.memory.set(state.pointer, cell.wrapping_sub((*v % 256) as u8));
            },
            Operator::Right(v) => {
                match state.pointer.checked_add(*v) {
                    Some(pointer) => state.pointer = pointer,
                    None => {
                        return Err(Fault::PointerOverflow);
                    },
                }
            },
            Operator::Left(v) => {
                match state.pointer.checked_sub(*v) {
                    Some(pointer) => state.pointer = pointer,
                    None => {
                        return Err(Fault::PointerOverflow);
                    },
                }
            },
            Operator::PutChar => {
                if state.pointer >= state.memory.len() {
                    return Err(Fault::OutOfBounds);
                }
                let c = state.memory[state.pointer];
                state.output.push(c);
            },
            Operator::ReadChar => {
                if state.pointer >= state.memory.len() {
                    return Err(Fault::OutOfBounds);
                }
                let c = match state.input.pop() {
                    Some(c) => c,
                    None => 0,
                };
                state.memory.set(state.pointer, c);
            },
        }
        Ok(())
    }
}

impl Interpret for Command {
    open spec fn run(&self, machine: Machine) -> Run {
        run_node(self@, machine)
    }

    fn interpret(&self, state: &mut State) -> (outcome: Result<(), Fault>)
        decreases self,
    {
        match self {
            Command::Operator(operator) => operator.interpret(state),
            Command::Iteration(iteration) => iteration.interpret(state),
        }
    }
}

impl Interpret for Iteration {
    open spec fn run(&self, machine: Machine) -> Run {
        run_loop(self@, machine)
    }

    fn interpret(&self, state: &mut State) -> (outcome: Result<(), Fault>)
        decreases self,
    {
        let ghost body = self@;
        let ghost start = state@;
        loop
            invariant
                body == self@,
                start == old(state)@,
                run_loop(body, state@) == run_loop(body, start),
            decreases state.steps,
        {
            if state.pointer >= state.memory.len() {
                return Err(Fault::OutOfBounds);
            }
            if state.memory[state.pointer] == 0 {
                return Ok(());
            }
            if state.steps == 0 {
                return Err(Fault::StepLimit);
            }
            state.steps -= 1;
            proof {
                lemma_run_from_spends(body, 0, state@);
            }
            if let Err(fault) = self.program.interpret(state) {
                return Err(fault);
            }
        }
    }
}

impl Interpret for Program {
    open spec fn run(&self, machine: Machine) -> Run {
        run_program(self@, machine)
    }

    fn interpret(&self, state: &mut State) -> (outcome: Result<(), Fault>)
        decreases self,
    {
        let ghost nodes = self@;
        let ghost start = state@;
        let mut i: usize = 0;
        while i < self.commands.len()
            invariant
                nodes == self@,
                start == old(state)@,
                i <= self.commands.len(),
                run_from(nodes, i as int, state@) == run_program(nodes, start),
            decreases self.commands.len() - i,
        {
            proof {
                lemma_run_node_spends(nodes[i as int], state@);
            }
            if let Err(fault) = self.commands[i].interpret(state) {
                return Err(fault);
            }
            i += 1;
        }
        Ok(())
    }
}

/// A machine together with the programs run on it so far.
pub struct Interpreter {
    pub state: State,
}

impl Interpreter {
    /// A new machine with the given input.
    pub fn new(input: Vec<u8>) -> (interpreter: Self)
        ensures
            interpreter.state@ == (Machine {
                memory: Seq::new(MEMORY_SIZE as nat, |i: int| 0u8),
                pointer: 0,
                input: input@,
                output: Seq::empty(),
                steps: u64::MAX as nat,
            }),
    {
        Self { state: State::new(input) }
    }

    /// Runs a program on the machine.
    pub fn interpret<P: Interpret>(&mut self, program: &P) -> (outcome: Result<(), Fault>)
        ensures
            final(self).state@ == program.run(old(self).state@).machine,
            outcome == match program.run(old(self).state@).fault {
                None => Ok::<(), Fault>(()),
                Some(fault) => Err(fault),
            },
    {
        program.interpret(&mut self.state)
    }
}

} // verus!
