//! The virtual machine: a tape, a current state with its arguments, two
//! stacks on which the next state is built, and the loop that runs a
//! program move by move.

use vstd::prelude::*;
use vstd::string::StringExecFns;
use crate::bytecode::{decode, decode_at, read_u32, u32_at, Instr};
use crate::error::{Error, ErrorKind};

verus! {

/// By how many cells the tape grows past the head when a write needs room.
pub const EXTRA_RESIZE_ROOM: usize = 256;

/// A state value in flight: the address of its first arm and the arguments
/// bound into it.
#[derive(Debug)]
pub struct Record {
    pub address: u32,
    pub states: Vec<Record>,
    pub symbols: Vec<u16>,
}

/// The mathematical value of a [`Record`].
pub struct RecordModel {
    pub address: u32,
    pub states: Seq<RecordModel>,
    pub symbols: Seq<u16>,
}

impl Record {
    /// The value of this record, arguments and all.
    pub open spec fn model(self) -> RecordModel
        decreases self,
    {
        RecordModel {
            address: self.address,
            states: Seq::new(
                self.states.len() as nat,
                |i: int|
                    if 0 <= i < self.states.len() {
                        self.states[i].model()
                    } else {
                        arbitrary()
                    },
            ),
            symbols: self.symbols@,
        }
    }

    /// A deep copy.
    pub fn copy(&self) -> (c: Record)
        ensures
            c@ == self@,
        decreases self,
    {
        let mut states: Vec<Record> = Vec::new();
        let mut i: usize = 0;
        while i < self.states.len()
            invariant
                i <= self.states.len(),
                states.len() == i,
                forall|j: int| 0 <= j < i ==> states[j]@ == self.states[j]@,
            decreases self.states.len() - i,
        {
            let c = self.states[i].copy();
            states.push(c);
            i += 1;
        }
        let symbols = self.symbols.clone();
        let c = Record { address: self.address, states, symbols };
        assert(c@.states =~= self@.states);
        c
    }
}

impl View for Record {
    type V = RecordModel;

    open spec fn view(&self) -> RecordModel {
        self.model()
    }
}

/// The values of a stack of records, bottom first.
pub open spec fn records(v: Seq<Record>) -> Seq<RecordModel> {
    Seq::new(v.len(), |i: int| v[i]@)
}

/// The symbol in cell `i` of a tape: every cell past the end is blank.
pub open spec fn cell(tape: Seq<u16>, i: int) -> u16 {
    if 0 <= i < tape.len() {
        tape[i]
    } else {
        0
    }
}

/// `n` blank cells.
pub open spec fn blanks(n: int) -> Seq<u16> {
    Seq::new(n as nat, |i: int| 0u16)
}

/// The tape after `value` is written at `head`. Writing the blank changes
/// nothing; writing past the end first grows the tape with blanks to
/// `head + EXTRA_RESIZE_ROOM` cells.
pub open spec fn written(tape: Seq<u16>, head: int, value: u16) -> Seq<u16> {
    if value == 0 {
        tape
    } else if head < tape.len() {
        tape.update(head, value)
    } else {
        (tape + blanks(head + EXTRA_RESIZE_ROOM - tape.len())).update(head, value)
    }
}

/// A tape without the blanks at its end.
pub open spec fn trimmed(tape: Seq<u16>) -> Seq<u16>
    decreases tape.len(),
{
    if tape.len() > 0 && tape.last() == 0 {
        trimmed(tape.drop_last())
    } else {
        tape
    }
}

/// A write changes the cell under the head, if the value is not the blank,
/// and no other cell.
pub proof fn lemma_written_cells(tape: Seq<u16>, head: int, value: u16, i: int)
    requires
        0 <= head,
    ensures
        cell(written(tape, head, value), i) == if i == head && value != 0 {
            value
        } else {
            cell(tape, i)
        },
        value == 0 ==> written(tape, head, value) == tape,
        written(tape, head, value).len() >= tape.len(),
{
}

/// Trimming removes blanks only: every cell reads as before.
pub proof fn lemma_trimmed_cells(tape: Seq<u16>, i: int)
    ensures
        cell(trimmed(tape), i) == cell(tape, i),
        trimmed(tape).len() <= tape.len(),
        trimmed(tape).len() > 0 ==> trimmed(tape).last() != 0,
    decreases tape.len(),
{
    if tape.len() > 0 && tape.last() == 0 {
        lemma_trimmed_cells(tape.drop_last(), i);
    }
}

/// The tape: the cells written so far and the position of the head.
#[derive(Debug)]
pub struct Tape {
    pub tape: Vec<u16>,
    pub head: usize,
}

impl Tape {
    /// The symbol under the head.
    pub fn read(&self) -> (value: u16)
        ensures
            value == cell(self.tape@, self.head as int),
    {
        if self.head < self.tape.len() {
            self.tape[self.head]
        } else {
            0
        }
    }

    /// Writes `value` under the head. The blank is never written: the tape
    /// and the head stay as they are, wherever the head stands. Only a
    /// write past the end grows the tape, and needs room for that.
    pub fn write(&mut self, value: u16)
        requires
            value != 0 && old(self).head >= old(self).tape.len() ==> old(self).head
                + EXTRA_RESIZE_ROOM <= usize::MAX,
        ensures
            value == 0 ==> final(self).tape@ == old(self).tape@,
            final(self).head == old(self).head,
            final(self).tape@ == written(old(self).tape@, old(self).head as int, value),
    {
        if value != 0 {
            if self.head >= self.tape.len() {
                let target: usize = self.head + EXTRA_RESIZE_ROOM;
                let ghost before = self.tape@;
                while self.tape.len() < target
                    invariant
                        self.head == old(self).head,
                        before.len() <= self.tape.len() <= target,
                        self.tape@ == before + blanks(self.tape.len() - before.len()),
                    decreases target - self.tape.len(),
                {
                    self.tape.push(0);
                    assert(self.tape@ =~= before + blanks(self.tape.len() - before.len()));
                }
            }
            self.tape.set(self.head, value);
        }
    }

    /// Moves the head `n` cells to the left, or to cell 0 if there are
    /// fewer. Returns whether the left end was hit.
    pub fn left(&mut self, n: u8) -> (hit: bool)
        ensures
            hit == (old(self).head < n),
            final(self).head == if hit {
                0
            } else {
                old(self).head - n
            },
            final(self).tape == old(self).tape,
    {
        if self.head < n as usize {
            self.head = 0;
            true
        } else {
            self.head = self.head - n as usize;
            false
        }
    }

    /// Moves the head `n` cells to the right.
    pub fn right(&mut self, n: u8)
        requires
            old(self).head + n <= usize::MAX,
        ensures
            final(self).head == old(self).head + n,
            final(self).tape == old(self).tape,
    {
        self.head = self.head + n as usize;
    }
}

/// The state of the machine between two instructions.
pub struct Machine {
    /// Offset of the next instruction.
    pub ip: int,
    pub tape: Seq<u16>,
    pub head: int,
    /// The current state.
    pub current: RecordModel,
    /// The stack of state arguments, bottom first.
    pub states: Seq<RecordModel>,
    /// The stack of symbol arguments, bottom first.
    pub symbols: Seq<u16>,
    /// The symbol that the last catch-all arm matched.
    pub bound: u16,
}

/// How an attempt to make one move ends.
pub enum Step {
    /// The move was made; the machine is in its next state.
    Moved(Machine),
    /// The current state is the halt state: nothing was done.
    Halted(Machine),
    /// The head hit the left end of the tape in the middle of the move.
    Boundary(Machine),
    /// The program is malformed at this point, or the head would leave the
    /// range of cells that this machine can address. The machine is as it
    /// stood before the instruction at fault.
    Fault(Machine),
}

/// The largest position of the head from which a write can still grow the
/// tape.
pub open spec fn head_limit() -> int {
    usize::MAX - EXTRA_RESIZE_ROOM
}

/// Runs the right-hand side of an arm from `m.ip` to its terminal
/// instruction.
pub open spec fn body_step(bytes: Seq<u8>, m: Machine) -> Step
    decreases bytes.len() - m.ip,
{
    match decode_at(bytes, m.ip) {
        None => Step::Fault(m),
        Some(instr) => {
            let next = m.ip + instr.size();
            match instr {
                Instr::Left => if m.head < 1 {
                    Step::Boundary(Machine { ip: next, head: 0, ..m })
                } else {
                    body_step(bytes, Machine { ip: next, head: m.head - 1, ..m })
                },
                Instr::LeftN(n) => if m.head < n {
                    Step::Boundary(Machine { ip: next, head: 0, ..m })
                } else {
                    body_step(bytes, Machine { ip: next, head: m.head - n, ..m })
                },
                Instr::Right => if m.head + 1 > head_limit() {
                    Step::Fault(m)
                } else {
                    body_step(bytes, Machine { ip: next, head: m.head + 1, ..m })
                },
                Instr::RightN(n) => if m.head + n > head_limit() {
                    Step::Fault(m)
                } else {
                    body_step(bytes, Machine { ip: next, head: m.head + n, ..m })
                },
                Instr::WriteArg(a) => if a >= m.current.symbols.len() {
                    Step::Fault(m)
                } else {
                    body_step(
                        bytes,
                        Machine {
                            ip: next,
                            tape: written(m.tape, m.head, m.current.symbols[a as int]),
                            ..m
                        },
                    )
                },
                Instr::WriteVal(v) => body_step(
                    bytes,
                    Machine { ip: next, tape: written(m.tape, m.head, v), ..m },
                ),
                Instr::WriteBound => body_step(
                    bytes,
                    Machine { ip: next, tape: written(m.tape, m.head, m.bound), ..m },
                ),
                Instr::SymbolArg(a) => if a >= m.current.symbols.len() {
                    Step::Fault(m)
                } else {
                    body_step(
                        bytes,
                        Machine {
                            ip: next,
                            symbols: m.symbols.push(m.current.symbols[a as int]),
                            ..m
                        },
                    )
                },
                Instr::SymbolVal(v) => body_step(
                    bytes,
                    Machine { ip: next, symbols: m.symbols.push(v), ..m },
                ),
                Instr::SymbolBound => body_step(
                    bytes,
                    Machine { ip: next, symbols: m.symbols.push(m.bound), ..m },
                ),
                Instr::TakeArg(a) => if a >= m.current.states.len() {
                    Step::Fault(m)
                } else {
                    body_step(
                        bytes,
                        Machine { ip: next, states: m.states.push(m.current.states[a as int]), ..m },
                    )
                },
                Instr::CloneArg(a) => if a >= m.current.states.len() {
                    Step::Fault(m)
                } else {
                    body_step(
                        bytes,
                        Machine { ip: next, states: m.states.push(m.current.states[a as int]), ..m },
                    )
                },
                Instr::FreeArg(_) => body_step(bytes, Machine { ip: next, ..m }),
                Instr::MakeState(k, address) => if k > m.states.len() {
                    Step::Fault(m)
                } else {
                    let kept = m.states.len() - k;
                    let made = RecordModel {
                        address,
                        states: m.states.subrange(kept, m.states.len() as int),
                        symbols: m.symbols,
                    };
                    body_step(
                        bytes,
                        Machine {
                            ip: next,
                            states: m.states.subrange(0, kept).push(made),
                            symbols: Seq::empty(),
                            ..m
                        },
                    )
                },
                Instr::FinalState(address) => Step::Moved(
                    Machine {
                        ip: address as int,
                        current: RecordModel { address, states: m.states, symbols: m.symbols },
                        states: Seq::empty(),
                        symbols: Seq::empty(),
                        ..m
                    },
                ),
                Instr::FinalArg(a) => if a >= m.current.states.len() {
                    Step::Fault(m)
                } else {
                    Step::Moved(
                        Machine {
                            ip: m.current.states[a as int].address as int,
                            current: m.current.states[a as int],
                            ..m
                        },
                    )
                },
                _ => Step::Fault(m),
            }
        },
    }
}

/// Makes one move from `m.ip`, the start of an arm of the current state:
/// finds the first arm whose pattern matches the symbol under the head and
/// runs its right-hand side.
pub open spec fn pattern_step(bytes: Seq<u8>, m: Machine) -> Step
    decreases bytes.len() - m.ip,
{
    match decode_at(bytes, m.ip) {
        None => Step::Fault(m),
        Some(instr) => {
            let next = m.ip + instr.size();
            match instr {
                Instr::CompareArg(a, skip) => if a >= m.current.symbols.len() {
                    Step::Fault(m)
                } else if cell(m.tape, m.head) == m.current.symbols[a as int] {
                    body_step(bytes, Machine { ip: next, ..m })
                } else if next + skip >= bytes.len() {
                    Step::Fault(m)
                } else {
                    pattern_step(bytes, Machine { ip: next + skip, ..m })
                },
                Instr::CompareVal(v, skip) => if cell(m.tape, m.head) == v {
                    body_step(bytes, Machine { ip: next, ..m })
                } else if next + skip >= bytes.len() {
                    Step::Fault(m)
                } else {
                    pattern_step(bytes, Machine { ip: next + skip, ..m })
                },
                Instr::Other => body_step(
                    bytes,
                    Machine { ip: next, bound: cell(m.tape, m.head), ..m },
                ),
                Instr::Halt => Step::Halted(m),
                _ => Step::Fault(m),
            }
        },
    }
}

/// Where a run ends: the machine and the number of moves made.
pub struct Outcome {
    pub machine: Machine,
    pub moves: int,
}

/// Runs the machine from `m`, with `moves` moves made so far, until the
/// current state is the halt state, the head hits the left end, or
/// `max_moves` moves are made. A move that hits the left end counts; the
/// halt state makes no move. On a fault the run ends in an error: the
/// machine as it stood before the instruction at fault, and the moves made
/// before the move at fault.
pub open spec fn run_from(bytes: Seq<u8>, m: Machine, moves: int, max_moves: int) -> Result<
    Outcome,
    Outcome,
>
    decreases max_moves - moves,
{
    if moves >= max_moves {
        Ok(Outcome { machine: m, moves })
    } else {
        match pattern_step(bytes, m) {
            Step::Moved(next) => run_from(bytes, next, moves + 1, max_moves),
            Step::Halted(last) => Ok(Outcome { machine: last, moves }),
            Step::Boundary(last) => Ok(Outcome { machine: last, moves: moves + 1 }),
            Step::Fault(at) => Err(Outcome { machine: at, moves }),
        }
    }
}

/// The machine before the first move: the head on cell 0, the current state
/// the one at the header's entry address, without arguments.
pub open spec fn initial(bytes: Seq<u8>, tape: Seq<u16>) -> Machine {
    let address = u32_at(bytes, 2);
    Machine {
        ip: address as int,
        tape,
        head: 0,
        current: RecordModel { address, states: Seq::empty(), symbols: Seq::empty() },
        states: Seq::empty(),
        symbols: Seq::empty(),
        bound: 0,
    }
}

/// The number of moves only grows, by one for each move, and never passes
/// the ceiling.
pub proof fn lemma_moves_bounded(bytes: Seq<u8>, m: Machine, moves: int, max_moves: int)
    requires
        moves <= max_moves,
    ensures
        run_from(bytes, m, moves, max_moves) is Ok ==> moves <= run_from(
            bytes,
            m,
            moves,
            max_moves,
        )->Ok_0.moves <= max_moves,
        run_from(bytes, m, moves, max_moves) is Err ==> moves <= run_from(
            bytes,
            m,
            moves,
            max_moves,
        )->Err_0.moves < max_moves,
        pattern_step(bytes, m) is Moved && moves < max_moves ==> run_from(
            bytes,
            m,
            moves,
            max_moves,
        ) == run_from(bytes, pattern_step(bytes, m)->Moved_0, moves + 1, max_moves),
    decreases max_moves - moves,
{
    if moves < max_moves {
        match pattern_step(bytes, m) {
            Step::Moved(next) => lemma_moves_bounded(bytes, next, moves + 1, max_moves),
            _ => {},
        }
    }
}

/// How an attempt to make one move ended; the machine itself holds the rest.
#[derive(Clone, Copy, Debug, PartialEq, Eq, Structural)]
pub enum Flow {
    Moved,
    Halted,
    Boundary,
    Fault,
}

/// The virtual machine.
pub struct Vm<'a> {
    pub bytes: &'a [u8],
    pub ip: usize,
    pub tape: Tape,
    pub state: Record,
    pub state_stack: Vec<Record>,
    pub symbol_stack: Vec<u16>,
    pub bound: u16,
    pub moves: usize,
    pub max_moves: usize,
}

impl<'a> Vm<'a> {
    /// The state of the machine.
    pub open spec fn model(self) -> Machine {
        Machine {
            ip: self.ip as int,
            tape: self.tape.tape@,
            head: self.tape.head as int,
            current: self.state@,
            states: records(self.state_stack@),
            symbols: self.symbol_stack@,
            bound: self.bound,
        }
    }

    /// The head is where a write can still grow the tape, and no more
    /// moves are counted than allowed.
    pub open spec fn wf(self) -> bool {
        &&& self.tape.head <= head_limit()
        &&& self.moves <= self.max_moves
    }

    /// Whether this machine, with the answer `flow`, is what `step` says.
    pub open spec fn agrees(self, flow: Flow, step: Step) -> bool {
        match step {
            Step::Moved(m) => flow == Flow::Moved && self.model() == m,
            Step::Halted(m) => flow == Flow::Halted && self.model() == m,
            Step::Boundary(m) => flow == Flow::Boundary && self.model() == m,
            Step::Fault(m) => flow == Flow::Fault && self.model() == m,
        }
    }

    /// A machine at the entry address of `bytes`, or `None` if `bytes` is
    /// too short to hold one.
    pub fn new(bytes: &'a [u8], tape: Vec<u16>, max_moves: usize) -> (vm: Option<Vm<'a>>)
        ensures
            vm is Some <==> bytes.len() >= 6,
            vm is Some ==> {
                &&& vm->0.wf()
                &&& vm->0.bytes == bytes
                &&& vm->0.moves == 0
                &&& vm->0.max_moves == max_moves
                &&& vm->0.model() == initial(bytes@, tape@)
            },
    {
        if bytes.len() < 6 {
            return None;
        }
        let address: u32 = read_u32(bytes, 2);
        let vm = Vm {
            bytes,
            ip: address as usize,
            tape: Tape { tape, head: 0 },
            state: Record { address, states: Vec::new(), symbols: Vec::new() },
            state_stack: Vec::new(),
            symbol_stack: Vec::new(),
            bound: 0,
            moves: 0,
            max_moves,
        };
        assert(vm.model().current.states =~= Seq::empty());
        assert(vm.model().states =~= Seq::empty());
        Some(vm)
    }

    /// Pushes a copy of state argument `a` of the current state.
    fn push_arg(&mut self, a: u8)
        requires
            a < old(self).state.states.len(),
        ensures
            final(self).model() == (Machine {
                states: old(self).model().states.push(old(self).model().current.states[a as int]),
                ..old(self).model()
            }),
            final(self).bytes == old(self).bytes,
            final(self).tape == old(self).tape,
            final(self).moves == old(self).moves,
            final(self).max_moves == old(self).max_moves,
    {
        let copy = self.state.states[a as usize].copy();
        self.state_stack.push(copy);
        assert(self.model().states =~= old(self).model().states.push(
            old(self).model().current.states[a as int],
        ));
    }

    /// Replaces the top `k` state arguments by one record at `address` that
    /// holds them, with all the symbol arguments.
    fn make_state(&mut self, k: u8, address: u32)
        requires
            k <= old(self).state_stack.len(),
        ensures
            final(self).model() == ({
                let m = old(self).model();
                let kept = m.states.len() - k;
                let made = RecordModel {
                    address,
                    states: m.states.subrange(kept, m.states.len() as int),
                    symbols: m.symbols,
                };
                Machine {
                    states: m.states.subrange(0, kept).push(made),
                    symbols: Seq::empty(),
                    ..m
                }
            }),
            final(self).bytes == old(self).bytes,
            final(self).tape == old(self).tape,
            final(self).moves == old(self).moves,
            final(self).max_moves == old(self).max_moves,
    {
        let kept: usize = self.state_stack.len() - k as usize;
        let states = self.state_stack.split_off(kept);
        let mut symbols: Vec<u16> = Vec::new();
        std::mem::swap(&mut symbols, &mut self.symbol_stack);
        let made = Record { address, states, symbols };
        proof {
            let m = old(self).model();
            assert(made@.states =~= m.states.subrange(kept as int, m.states.len() as int));
        }
        self.state_stack.push(made);
        proof {
            let m = old(self).model();
            assert(self.model().states =~= m.states.subrange(0, kept as int).push(made@));
            assert(self.model().symbols =~= Seq::empty());
        }
    }

    /// Makes the record built on the stacks the current state.
    fn final_state(&mut self, address: u32)
        ensures
            final(self).model() == ({
                let m = old(self).model();
                Machine {
                    ip: address as int,
                    current: RecordModel { address, states: m.states, symbols: m.symbols },
                    states: Seq::empty(),
                    symbols: Seq::empty(),
                    ..m
                }
            }),
            final(self).bytes == old(self).bytes,
            final(self).tape == old(self).tape,
            final(self).moves == old(self).moves,
            final(self).max_moves == old(self).max_moves,
    {
        let mut states: Vec<Record> = Vec::new();
        std::mem::swap(&mut states, &mut self.state_stack);
        let mut symbols: Vec<u16> = Vec::new();
        std::mem::swap(&mut symbols, &mut self.symbol_stack);
        self.state = Record { address, states, symbols };
        self.ip = address as usize;
        proof {
            let m = old(self).model();
            assert(self.model().current.states =~= m.states);
            assert(self.model().states =~= Seq::empty());
            assert(self.model().symbols =~= Seq::empty());
        }
    }

    /// Makes state argument `a` of the current state the current state.
    fn final_arg(&mut self, a: u8)
        requires
            a < old(self).state.states.len(),
        ensures
            final(self).model() == ({
                let m = old(self).model();
                Machine {
                    ip: m.current.states[a as int].address as int,
                    current: m.current.states[a as int],
                    ..m
                }
            }),
            final(self).bytes == old(self).bytes,
            final(self).tape == old(self).tape,
            final(self).moves == old(self).moves,
            final(self).max_moves == old(self).max_moves,
    {
        let next = self.state.states[a as usize].copy();
        self.ip = next.address as usize;
        self.state = next;
    }

    /// Runs the right-hand side of an arm to its terminal instruction.
    pub fn rhs(&mut self) -> (flow: Flow)
        requires
            old(self).wf(),
        ensures
            final(self).agrees(flow, body_step(old(self).bytes@, old(self).model())),
            final(self).wf(),
            final(self).bytes == old(self).bytes,
            final(self).moves == old(self).moves,
            final(self).max_moves == old(self).max_moves,
    {
        loop
            invariant
                self.wf(),
                self.bytes == old(self).bytes,
                self.moves == old(self).moves,
                self.max_moves == old(self).max_moves,
                body_step(self.bytes@, self.model()) == body_step(
                    old(self).bytes@,
                    old(self).model(),
                ),
            decreases self.bytes.len() - self.ip,
        {
            let ghost before = self.model();
            let instr = match decode(self.bytes, self.ip) {
                None => {
                    return Flow::Fault;
                },
                Some(instr) => instr,
            };
            let next: usize = self.ip + instr.len();
            match instr {
                Instr::Left => {
                    self.ip = next;
                    if self.tape.left(1) {
                        return Flow::Boundary;
                    }
                },
                Instr::LeftN(n) => {
                    self.ip = next;
                    if self.tape.left(n) {
                        return Flow::Boundary;
                    }
                },
                Instr::Right => {
                    if self.tape.head > usize::MAX - EXTRA_RESIZE_ROOM - 1 {
                        return Flow::Fault;
                    }
                    self.ip = next;
                    self.tape.right(1);
                },
                Instr::RightN(n) => {
                    if self.tape.head > usize::MAX - EXTRA_RESIZE_ROOM - n as usize {
                        return Flow::Fault;
                    }
                    self.ip = next;
                    self.tape.right(n);
                },
                Instr::WriteArg(a) => {
                    if a as usize >= self.state.symbols.len() {
                        return Flow::Fault;
                    }
                    self.ip = next;
                    let value: u16 = self.state.symbols[a as usize];
                    self.tape.write(value);
                },
                Instr::WriteVal(v) => {
                    self.ip = next;
                    self.tape.write(v);
                },
                Instr::WriteBound => {
                    self.ip = next;
                    let value: u16 = self.bound;
                    self.tape.write(value);
                },
                Instr::SymbolArg(a) => {
                    if a as usize >= self.state.symbols.len() {
                        return Flow::Fault;
                    }
                    self.ip = next;
                    let value: u16 = self.state.symbols[a as usize];
                    self.symbol_stack.push(value);
                },
                Instr::SymbolVal(v) => {
                    self.ip = next;
                    self.symbol_stack.push(v);
                },
                Instr::SymbolBound => {
                    self.ip = next;
                    let value: u16 = self.bound;
                    self.symbol_stack.push(value);
                },
                Instr::TakeArg(a) => {
                    if a as usize >= self.state.states.len() {
                        return Flow::Fault;
                    }
                    self.ip = next;
                    self.push_arg(a);
                },
                Instr::CloneArg(a) => {
                    if a as usize >= self.state.states.len() {
                        return Flow::Fault;
                    }
                    self.ip = next;
                    self.push_arg(a);
                },
                Instr::FreeArg(_) => {
                    self.ip = next;
                },
                Instr::MakeState(k, address) => {
                    if k as usize > self.state_stack.len() {
                        return Flow::Fault;
                    }
                    self.ip = next;
                    self.make_state(k, address);
                },
                Instr::FinalState(address) => {
                    self.final_state(address);
                    return Flow::Moved;
                },
                Instr::FinalArg(a) => {
                    if a as usize >= self.state.states.len() {
                        return Flow::Fault;
                    }
                    self.final_arg(a);
                    return Flow::Moved;
                },
                _ => {
                    return Flow::Fault;
                },
            }
        }
    }

    /// Makes one move: finds the arm of the current state that matches the
    /// symbol under the head and runs it.
    pub fn run_move(&mut self) -> (flow: Flow)
        requires
            old(self).wf(),
        ensures
            final(self).agrees(flow, pattern_step(old(self).bytes@, old(self).model())),
            final(self).wf(),
            final(self).bytes == old(self).bytes,
            final(self).moves == old(self).moves,
            final(self).max_moves == old(self).max_moves,
    {
        loop
            invariant
                self.wf(),
                self.bytes == old(self).bytes,
                self.moves == old(self).moves,
                self.max_moves == old(self).max_moves,
                pattern_step(self.bytes@, self.model()) == pattern_step(
                    old(self).bytes@,
                    old(self).model(),
                ),
            decreases self.bytes.len() - self.ip,
        {
            let instr = match decode(self.bytes, self.ip) {
                None => {
                    return Flow::Fault;
                },
                Some(instr) => instr,
            };
            let next: usize = self.ip + instr.len();
            match instr {
                Instr::CompareArg(a, skip) => {
                    if a as usize >= self.state.symbols.len() {
                        return Flow::Fault;
                    }
                    if self.tape.read() == self.state.symbols[a as usize] {
                        self.ip = next;
                        return self.rhs();
                    }
                    if skip as usize >= self.bytes.len() - next {
                        return Flow::Fault;
                    }
                    self.ip = next + skip as usize;
                },
                Instr::CompareVal(v, skip) => {
                    if self.tape.read() == v {
                        self.ip = next;
                        return self.rhs();
                    }
                    if skip as usize >= self.bytes.len() - next {
                        return Flow::Fault;
                    }
                    self.ip = next + skip as usize;
                },
                Instr::Other => {
                    self.bound = self.tape.read();
                    self.ip = next;
                    return self.rhs();
                },
                Instr::Halt => {
                    return Flow::Halted;
                },
                _ => {
                    return Flow::Fault;
                },
            }
        }
    }

    /// Runs until the halt state, the left end of the tape or the ceiling
    /// on moves is reached. Returns `false` on a fault, where the machine
    /// stops before the instruction at fault.
    pub fn run(&mut self) -> (ok: bool)
        requires
            old(self).wf(),
        ensures
            final(self).wf(),
            final(self).bytes == old(self).bytes,
            final(self).max_moves == old(self).max_moves,
            final(self).moves >= old(self).moves,
            run_from(
                old(self).bytes@,
                old(self).model(),
                old(self).moves as int,
                old(self).max_moves as int,
            ) == if ok {
                Ok::<Outcome, Outcome>(
                    Outcome { machine: final(self).model(), moves: final(self).moves as int },
                )
            } else {
                Err::<Outcome, Outcome>(
                    Outcome { machine: final(self).model(), moves: final(self).moves as int },
                )
            },
    {
        while self.moves < self.max_moves
            invariant
                self.wf(),
                self.bytes == old(self).bytes,
                self.max_moves == old(self).max_moves,
                self.moves >= old(self).moves,
                run_from(
                    self.bytes@,
                    self.model(),
                    self.moves as int,
                    self.max_moves as int,
                ) == run_from(
                    old(self).bytes@,
                    old(self).model(),
                    old(self).moves as int,
                    old(self).max_moves as int,
                ),
            decreases self.max_moves - self.moves,
        {
            match self.run_move() {
                Flow::Moved => {
                    self.moves = self.moves + 1;
                },
                Flow::Halted => {
                    return true;
                },
                Flow::Boundary => {
                    self.moves = self.moves + 1;
                    return true;
                },
                Flow::Fault => {
                    return false;
                },
            }
        }
        true
    }
}

/// What a run leaves behind.
#[derive(Debug)]
pub struct Simulated {
    /// The tape, without the blanks at its end.
    pub tape: Vec<u16>,
    pub head_position: usize,
    /// The address of the state in which the run ended.
    pub final_address: u32,
    pub moves: usize,
}

/// The mathematical value of a [`Simulated`].
pub struct SimulatedModel {
    pub tape: Seq<u16>,
    pub head_position: int,
    pub final_address: u32,
    pub moves: int,
}

impl View for Simulated {
    type V = SimulatedModel;

    open spec fn view(&self) -> SimulatedModel {
        SimulatedModel {
            tape: self.tape@,
            head_position: self.head_position as int,
            final_address: self.final_address,
            moves: self.moves as int,
        }
    }
}

/// What running the program `bytes` on `tape` for at most `max_moves` moves
/// leaves behind, or `None` where the program is too short to hold a header
/// or the run ends in a fault.
pub open spec fn simulation(bytes: Seq<u8>, tape: Seq<u16>, max_moves: int) -> Option<
    SimulatedModel,
> {
    if bytes.len() < 6 {
        None
    } else {
        match run_from(bytes, initial(bytes, tape), 0, max_moves) {
            Err(_) => None,
            Ok(end) => Some(
                SimulatedModel {
                    tape: trimmed(end.machine.tape),
                    head_position: end.machine.head,
                    final_address: end.machine.current.address,
                    moves: end.moves,
                },
            ),
        }
    }
}

/// Removes the blanks at the end of a tape.
pub fn trim(tape: &mut Vec<u16>)
    ensures
        final(tape)@ == trimmed(old(tape)@),
{
    while tape.len() > 0 && tape[tape.len() - 1] == 0
        invariant
            trimmed(tape@) == trimmed(old(tape)@),
        decreases tape.len(),
    {
        let ghost before = tape@;
        tape.pop();
        assert(tape@ =~= before.drop_last());
    }
}

/// Runs the program `bytes` on `tape` for at most `max_moves` moves. Fails
/// with `InvalidBytecode` exactly where the run meets a fault.
pub fn try_simulate(bytes: &[u8], tape: Vec<u16>, max_moves: usize) -> (r: Result<
    Simulated,
    Error,
>)
    ensures
        match simulation(bytes@, tape@, max_moves as int) {
            Some(s) => r is Ok && r->Ok_0@ == s,
            None => r is Err && r->Err_0.kind == ErrorKind::InvalidBytecode && r->Err_0.span
                is None,
        },
{
    let mut vm = match Vm::new(bytes, tape, max_moves) {
        None => {
            return Err(invalid_bytecode());
        },
        Some(vm) => vm,
    };
    if !vm.run() {
        return Err(invalid_bytecode());
    }
    let Vm { tape, state, moves, .. } = vm;
    let Tape { tape: mut cells, head } = tape;
    trim(&mut cells);
    Ok(Simulated { tape: cells, head_position: head, final_address: state.address, moves })
}

/// Runs the program `bytes` on `tape` for at most `max_moves` moves.
pub fn simulate(bytes: &[u8], tape: Vec<u16>, max_moves: usize) -> (s: Simulated)
    requires
        simulation(bytes@, tape@, max_moves as int) is Some,
    ensures
        Some(s@) == simulation(bytes@, tape@, max_moves as int),
{
    match try_simulate(bytes, tape, max_moves) {
        Ok(s) => s,
        Err(_) => unreached(),
    }
}

fn invalid_bytecode() -> (e: Error)
    ensures
        e.kind == ErrorKind::InvalidBytecode,
        e.span is None,
{
    Error::new(ErrorKind::InvalidBytecode, String::from_str("invalid bytecode"), None)
}

} // verus!
