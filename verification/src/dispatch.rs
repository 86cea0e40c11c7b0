//! The command dispatcher.
//!
//! Commands are taken one by one, in order. Each either changes the
//! registers or prints one of them, and `Quit` ends the run. What a run does
//! is defined by [`step`], on a mathematical model of the registers;
//! [`try_handle_commands`] and [`handle_commands`] carry it out.

use crate::registers::{handles_in_range, resolved_names, resolved_nodes, RegisterTable};
use crate::text::{decimal, isize_to_string, uninitialized_message, uninitialized_text};
use crate::value_rc::{chain_total, links_in_range, Fault, Store, Value};
use vstd::prelude::*;

verus! {

/// One command. The first field of a command that has fields is the name of
/// the register it is about.
#[derive(PartialEq, Debug)]
pub enum Command {
    /// Ends the run.
    Quit,
    /// Puts out the total of a register, or a message where no command
    /// has created the register yet.
    Print(String),
    /// Adds to the number of a register.
    Add(String, isize),
    /// Makes the value of the second register follow the value of the
    /// first, so that the first register's total includes the second's.
    LazyAdd(String, String),
    /// Subtracts from the number of a register.
    Subtract(String, isize),
    /// Multiplies the number of a register.
    Multiply(String, isize),
}

/// The registers as mathematics: the values by handle, and the handle that
/// each known name stands for.
pub struct Machine {
    pub nodes: Seq<Value>,
    pub names: Map<Seq<char>, usize>,
}

impl Machine {
    /// All handles, in links and in the table, name values of the machine.
    pub open spec fn wf(self) -> bool {
        &&& links_in_range(self.nodes)
        &&& handles_in_range(self.names, self.nodes.len())
    }

    /// No two names stand for the same value, and every handle of the
    /// machine is a `usize`.
    pub open spec fn apart(self) -> bool {
        &&& self.nodes.len() <= usize::MAX
        &&& forall|a: Seq<char>, b: Seq<char>|
            #![trigger self.names[a], self.names[b]]
            self.names.contains_key(a) && self.names.contains_key(b) && a != b
                ==> self.names[a] != self.names[b]
    }

    /// The value of the register `source` follows the value of the register
    /// `target`, both known.
    pub open spec fn linked(self, target: Seq<char>, source: Seq<char>) -> bool {
        &&& self.names.contains_key(target)
        &&& self.names.contains_key(source)
        &&& self.value(target).next == Some(self.names[source])
    }

    /// No values and no names.
    pub open spec fn empty() -> Machine {
        Machine { nodes: Seq::empty(), names: Map::empty() }
    }

    /// The machine in which `name` is known: unchanged where it was known
    /// already, else with a fresh value for it.
    pub open spec fn resolve(self, name: Seq<char>) -> Machine {
        Machine {
            nodes: resolved_nodes(self.nodes, self.names, name),
            names: resolved_names(self.nodes, self.names, name),
        }
    }

    /// The value that the known register `name` stands for.
    pub open spec fn value(self, name: Seq<char>) -> Value {
        self.nodes[self.names[name] as int]
    }

    /// The machine in which the value of the known register `name` has the
    /// number `number`.
    pub open spec fn assign(self, name: Seq<char>, number: isize) -> Machine {
        Machine {
            nodes: self.nodes.update(
                self.names[name] as int,
                Value { number, next: self.value(name).next },
            ),
            names: self.names,
        }
    }

    /// The machine in which the value of the known register `source` follows
    /// the value of the known register `target`.
    pub open spec fn link(self, target: Seq<char>, source: Seq<char>) -> Machine {
        Machine {
            nodes: self.nodes.update(
                self.names[target] as int,
                Value { number: self.value(target).number, next: Some(self.names[source]) },
            ),
            names: self.names,
        }
    }

    /// The total of the known register `name`.
    pub open spec fn total(self, name: Seq<char>) -> Result<int, Fault> {
        chain_total(self.nodes, self.names[name] as int)
    }
}

/// Whether a run takes further commands.
pub enum Status {
    /// It does.
    Running,
    /// `Quit` was met.
    Halted,
    /// A command could not be carried out.
    Failed(Fault),
}

/// A run so far: the registers, what was put out, and whether it goes on.
pub struct Trace {
    pub machine: Machine,
    pub outputs: Seq<Seq<char>>,
    pub status: Status,
}

impl Command {
    /// The register whose number the command changes, where it is an `Add`, a
    /// `Subtract` or a `Multiply`.
    pub open spec fn written(self) -> Option<Seq<char>> {
        match self {
            Command::Add(name, _) => Some(name@),
            Command::Subtract(name, _) => Some(name@),
            Command::Multiply(name, _) => Some(name@),
            _ => None,
        }
    }

    /// The number that the command makes of `current`: the sum, the
    /// difference or the product with its operand.
    pub open spec fn applied(self, current: int) -> int {
        match self {
            Command::Add(_, operand) => current + operand,
            Command::Subtract(_, operand) => current - operand,
            Command::Multiply(_, operand) => current * operand,
            _ => current,
        }
    }

    /// The number that the command makes of `current`, or `None` where it
    /// is no `isize`.
    fn apply(&self, current: isize) -> (number: Option<isize>)
        requires
            self.written() is Some,
        ensures
            number == (if isize::MIN <= self.applied(current as int) <= isize::MAX {
                Some(self.applied(current as int) as isize)
            } else {
                None
            }),
    {
        match self {
            Command::Add(_, operand) => current.checked_add(*operand),
            Command::Subtract(_, operand) => current.checked_sub(*operand),
            Command::Multiply(_, operand) => current.checked_mul(*operand),
            _ => None,
        }
    }
}

/// A run that has not taken any command.
pub open spec fn start() -> Trace {
    Trace { machine: Machine::empty(), outputs: Seq::empty(), status: Status::Running }
}

/// `Print(name)` at position `index`. A known register puts out its total in
/// decimal, and a total that cannot be computed fails the run. An unknown
/// register puts out a message; it stays unknown.
pub open spec fn print_step(t: Trace, index: nat, name: Seq<char>) -> Trace {
    if t.machine.names.contains_key(name) {
        match t.machine.total(name) {
            Ok(total) => Trace { outputs: t.outputs.push(decimal(total)), ..t },
            Err(fault) => Trace { status: Status::Failed(fault), ..t },
        }
    } else {
        Trace { outputs: t.outputs.push(uninitialized_text(name, index)), ..t }
    }
}

/// An `Add`, `Subtract` or `Multiply` on the register `name`. The register
/// is resolved, and its value gets the new number; a number that is no
/// `isize` fails the run.
pub open spec fn write_step(t: Trace, c: Command, name: Seq<char>) -> Trace {
    let machine = t.machine.resolve(name);
    let number = c.applied(machine.value(name).number as int);
    if isize::MIN <= number <= isize::MAX {
        Trace { machine: machine.assign(name, number as isize), ..t }
    } else {
        Trace { status: Status::Failed(Fault::Overflow), ..t }
    }
}

/// `LazyAdd(target, source)`. Both registers are resolved, the target first,
/// and the source's value then follows the target's.
pub open spec fn link_step(t: Trace, target: Seq<char>, source: Seq<char>) -> Trace {
    Trace { machine: t.machine.resolve(target).resolve(source).link(target, source), ..t }
}

/// The run after the command `c`, which stands at position `index` of the
/// command sequence. A run that has halted or failed takes no command.
pub open spec fn step(t: Trace, index: nat, c: Command) -> Trace {
    if !(t.status is Running) {
        t
    } else {
        match c {
            Command::Quit => Trace { status: Status::Halted, ..t },
            Command::Print(name) => print_step(t, index, name@),
            Command::LazyAdd(target, source) => link_step(t, target@, source@),
            Command::Add(name, _) => write_step(t, c, name@),
            Command::Subtract(name, _) => write_step(t, c, name@),
            Command::Multiply(name, _) => write_step(t, c, name@),
        }
    }
}

/// The run after the first `n` of `commands`.
pub open spec fn run(commands: Seq<Command>, n: nat) -> Trace
    decreases n,
{
    if n == 0 {
        start()
    } else {
        step(run(commands, (n - 1) as nat), (n - 1) as nat, commands[n - 1])
    }
}

/// What a run of all of `commands` yields: its outputs, in order, or the
/// fault that stopped it.
pub open spec fn outcome(commands: Seq<Command>) -> Result<Seq<Seq<char>>, Fault> {
    let t = run(commands, commands.len());
    match t.status {
        Status::Failed(fault) => Err(fault),
        _ => Ok(t.outputs),
    }
}

/// A run that has halted or failed stays as it is.
pub proof fn lemma_settled(commands: Seq<Command>, n: nat, m: nat)
    requires
        n <= m,
        !(run(commands, n).status is Running),
    ensures
        run(commands, m) == run(commands, n),
    decreases m,
{
    if m > n {
        lemma_settled(commands, n, (m - 1) as nat);
    }
}

/// Runs the commands and returns what they put out: one text for each
/// `Print` that comes before the first `Quit`. The run fails where a total
/// is asked of a chain that leads back into itself, and where a number or a
/// partial sum of a total is no `isize`.
pub fn try_handle_commands(commands: Vec<Command>) -> (result: Result<Vec<String>, Fault>)
    ensures
        match result {
            Ok(outputs) => outcome(commands@) == Ok::<Seq<Seq<char>>, Fault>(outputs.deep_view()),
            Err(fault) => outcome(commands@) == Err::<Seq<Seq<char>>, Fault>(fault),
        },
{
    let mut store = Store::new();
    let mut table = RegisterTable::new();
    let mut outputs: Vec<String> = Vec::new();
    let mut index: usize = 0;
    assert(outputs.deep_view() =~= Seq::<Seq<char>>::empty());
    while index < commands.len()
        invariant
            index <= commands.len(),
            store.wf(),
            handles_in_range(table@, store@.len()),
            run(commands@, index as nat).machine.nodes == store@,
            run(commands@, index as nat).machine.names == table@,
            run(commands@, index as nat).outputs == outputs.deep_view(),
            run(commands@, index as nat).status is Running,
        decreases commands.len() - index,
    {
        let ghost before = run(commands@, index as nat);
        let ghost after = run(commands@, (index + 1) as nat);
        let ghost shown = outputs.deep_view();
        assert(after == step(before, index as nat, commands@[index as int]));
        let command = &commands[index];
        match command {
            Command::Quit => {
                proof {
                    lemma_settled(commands@, (index + 1) as nat, commands@.len());
                }
                return Ok(outputs);
            },
            Command::Print(name) => {
                match table.lookup(name) {
                    Some(handle) => match store.total(handle) {
                        Ok(total) => {
                            outputs.push(isize_to_string(total));
                            assert(outputs.deep_view() =~= shown.push(decimal(total as int)));
                        },
                        Err(fault) => {
                            proof {
                                lemma_settled(commands@, (index + 1) as nat, commands@.len());
                            }
                            return Err(fault);
                        },
                    },
                    None => {
                        outputs.push(uninitialized_message(name, index));
                        assert(outputs.deep_view() =~= shown.push(
                            uninitialized_text(name@, index as nat),
                        ));
                    },
                }
            },
            Command::LazyAdd(target_name, source_name) => {
                let target = table.resolve(target_name, &mut store);
                let source = table.resolve(source_name, &mut store);
                store.link(target, source);
                assert(after.machine.nodes =~= store@);
            },
            Command::Add(name, _) | Command::Subtract(name, _) | Command::Multiply(name, _) => {
                assert(after == write_step(before, *command, name@));
                let handle = table.resolve(name, &mut store);
                match command.apply(store.get(handle).number) {
                    Some(number) => {
                        store.assign(handle, number);
                        assert(after.machine.nodes =~= store@);
                    },
                    None => {
                        proof {
                            lemma_settled(commands@, (index + 1) as nat, commands@.len());
                        }
                        return Err(Fault::Overflow);
                    },
                }
            },
        }
        index = index + 1;
    }
    Ok(outputs)
}

/// Runs the commands and returns what they put out: one text for each
/// `Print` that comes before the first `Quit`.
///
/// The run must not fail; [`try_handle_commands`] tells whether it does.
pub fn handle_commands(commands: Vec<Command>) -> (outputs: Vec<String>)
    requires
        outcome(commands@) is Ok,
    ensures
        outcome(commands@) == Ok::<Seq<Seq<char>>, Fault>(outputs.deep_view()),
{
    match try_handle_commands(commands) {
        Ok(outputs) => outputs,
        Err(_) => unreached(),
    }
}

} // verus!
