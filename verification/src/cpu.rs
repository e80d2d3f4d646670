//! A processor with one register and two instructions, its state cycle by
//! cycle, and the screen that the register drives.

use vstd::prelude::*;
use vstd::string::StringSliceAdditionalSpecFns;
use crate::text::{has_at, scan_signed, spec_signed_at, starts_with, NEWLINE};

verus! {

#[derive(Debug, Copy, Clone, PartialEq, Eq, Structural)]
pub enum Instruction {
    Add(i64),
    Noop,
}

impl Instruction {
    /// How many cycles the instruction takes.
    pub open spec fn spec_cycles(&self) -> nat {
        match self {
            Instruction::Add(_) => 2,
            Instruction::Noop => 1,
        }
    }

    /// What the instruction adds to the register.
    pub open spec fn addend(&self) -> int {
        match self {
            Instruction::Add(n) => *n as int,
            Instruction::Noop => 0,
        }
    }

    /// How many cycles the instruction takes.
    pub fn cycles(&self) -> (c: usize)
        ensures
            c == self.spec_cycles(),
    {
        match self {
            Instruction::Add(_) => 2,
            Instruction::Noop => 1,
        }
    }
}

/// The cycles that a program takes.
pub open spec fn total_cycles(program: Seq<Instruction>) -> nat
    decreases program.len(),
{
    if program.len() == 0 {
        0
    } else {
        total_cycles(program.drop_last()) + program.last().spec_cycles()
    }
}

/// The register after those instructions of a program that are complete
/// before cycle `limit`: it starts at 1.
pub open spec fn register_before(program: Seq<Instruction>, limit: nat) -> int
    decreases program.len(),
{
    if program.len() == 0 {
        1
    } else {
        register_before(program.drop_last(), limit) + if total_cycles(program) < limit {
            program.last().addend()
        } else {
            0
        }
    }
}

/// The number of the cycle and the value of the register.
#[derive(Debug, Copy, Clone, PartialEq, Eq, Structural)]
pub struct CpuState {
    pub cycles: usize,
    pub register_value: i64,
}

/// The states of the processor after each cycle of a program, the state
/// before the first cycle included: an addition changes the register with
/// its second cycle.
pub open spec fn spec_states(program: Seq<Instruction>) -> Seq<(nat, int)>
    decreases program.len(),
{
    if program.len() == 0 {
        seq![(0nat, 1int)]
    } else {
        let before = spec_states(program.drop_last());
        let (c, r) = before.last();
        match program.last() {
            Instruction::Noop => before.push((c + 1, r)),
            Instruction::Add(n) => before.push((c + 1, r)).push((c + 2, r + n)),
        }
    }
}

/// A state as a pair of numbers.
pub open spec fn state_pair(s: CpuState) -> (nat, int) {
    (s.cycles as nat, s.register_value as int)
}

/// There is a state for each cycle and one more, and the state at place
/// `i` is that after `i` cycles.
pub proof fn lemma_states_by_cycle(program: Seq<Instruction>)
    ensures
        spec_states(program).len() == total_cycles(program) + 1,
        forall|i: int|
            0 <= i < spec_states(program).len() ==> (#[trigger] spec_states(program)[i]).0 == i,
    decreases program.len(),
{
    if program.len() > 0 {
        lemma_states_by_cycle(program.drop_last());
    }
}

impl CpuState {
    /// Runs a program and gives the state during cycle `cycle_limit`: the
    /// register as the instructions that are complete before that cycle
    /// leave it. Nothing where a number grows too large for the machine on
    /// the way.
    pub fn run_to(instructions: &Vec<Instruction>, cycle_limit: usize) -> (r: Option<Self>)
        ensures
            r is Some <==> forall|k: int|
                0 <= k <= instructions@.len() ==> total_cycles(#[trigger] instructions@.take(k))
                    <= usize::MAX && i64::MIN <= register_before(
                    instructions@.take(k),
                    cycle_limit as nat,
                ) <= i64::MAX,
            match r {
                Some(s) => s.cycles == cycle_limit && s.register_value == register_before(
                    instructions@,
                    cycle_limit as nat,
                ),
                None => exists|k: int|
                    0 <= k <= instructions@.len() && (total_cycles(
                        #[trigger] instructions@.take(k),
                    ) > usize::MAX || !(i64::MIN <= register_before(
                        instructions@.take(k),
                        cycle_limit as nat,
                    ) <= i64::MAX)),
            },
    {
        let mut register_value: i64 = 1;
        let mut cycles: usize = 0;
        let mut i: usize = 0;
        assert(instructions@.take(0) =~= Seq::<Instruction>::empty());
        while i < instructions.len()
            invariant
                i <= instructions@.len(),
                cycles == total_cycles(instructions@.take(i as int)),
                register_value == register_before(instructions@.take(i as int), cycle_limit as nat),
                forall|k: int|
                    0 <= k <= i ==> total_cycles(#[trigger] instructions@.take(k)) <= usize::MAX
                        && i64::MIN <= register_before(instructions@.take(k), cycle_limit as nat)
                        <= i64::MAX,
            decreases instructions@.len() - i,
        {
            let ins = instructions[i];
            let ghost next = instructions@.take(i + 1);
            assert(next.drop_last() =~= instructions@.take(i as int));
            assert(next.last() == ins);
            let c = ins.cycles();
            if c > usize::MAX - cycles {
                return None;
            }
            cycles += c;
            if cycles < cycle_limit {
                if let Instruction::Add(n) = ins {
                    match register_value.checked_add(n) {
                        Some(v) => {
                            register_value = v;
                        },
                        None => {
                            return None;
                        },
                    }
                }
            }
            i += 1;
        }
        assert(instructions@.take(i as int) =~= instructions@);
        Some(Self { register_value, cycles: cycle_limit })
    }

    /// The number of the cycle times the value of the register, or nothing
    /// where the product is too large for the machine.
    pub fn signal_strength(&self) -> (r: Option<i64>)
        ensures
            match r {
                Some(s) => s == self.cycles * self.register_value,
                None => !(i64::MIN <= self.cycles * self.register_value <= i64::MAX),
            },
    {
        let c: i128 = self.cycles as i128;
        let v: i128 = self.register_value as i128;
        assert(-0x8000_0000_0000_0000_0000_0000_0000_0000 <= c * v
            <= 0x7fff_ffff_ffff_ffff_ffff_ffff_ffff_ffff) by (nonlinear_arith)
            requires
                0 <= c <= 0xffff_ffff_ffff_ffff,
                -0x8000_0000_0000_0000 <= v <= 0x7fff_ffff_ffff_ffff,
        ;
        let p: i128 = c * v;
        if p < -0x8000_0000_0000_0000 || p > 0x7fff_ffff_ffff_ffff {
            None
        } else {
            Some(p as i64)
        }
    }

    /// Carries out one instruction.
    pub fn update(&mut self, inst: Instruction)
        requires
            old(self).cycles + inst.spec_cycles() <= usize::MAX,
            i64::MIN <= old(self).register_value + inst.addend() <= i64::MAX,
        ensures
            final(self).cycles == old(self).cycles + inst.spec_cycles(),
            final(self).register_value == old(self).register_value + inst.addend(),
    {
        self.cycles += inst.cycles();
        if let Instruction::Add(n) = inst {
            self.register_value += n;
        }
    }

    /// The state after each cycle of a program, the state before the first
    /// cycle included, so that the state at place `i` is that after `i`
    /// cycles. Nothing where a number grows too large for the machine.
    pub fn cycle_states(inst_set: &Vec<Instruction>) -> (r: Option<Vec<CpuState>>)
        ensures
            match r {
                Some(states) => {
                    &&& states@.map_values(|s: CpuState| state_pair(s)) == spec_states(inst_set@)
                    &&& states@.len() == total_cycles(inst_set@) + 1
                    &&& forall|i: int| 0 <= i < states@.len() ==> (#[trigger] states@[i]).cycles == i
                },
                None => exists|k: int, j: int|
                    0 <= k <= inst_set@.len() && 0 <= j < spec_states(
                        #[trigger] inst_set@.take(k),
                    ).len() && {
                        let (c, v) = #[trigger] spec_states(inst_set@.take(k))[j];
                        c > usize::MAX || !(i64::MIN <= v <= i64::MAX)
                    },
            },
    {
        let mut states: Vec<CpuState> = Vec::new();
        states.push(CpuState::default());
        let mut i: usize = 0;
        assert(inst_set@.take(0) =~= Seq::<Instruction>::empty());
        assert(states@.map_values(|s: CpuState| state_pair(s)) =~= seq![(0nat, 1int)]);
        while i < inst_set.len()
            invariant
                i <= inst_set@.len(),
                states@.len() > 0,
                states@.map_values(|s: CpuState| state_pair(s)) == spec_states(
                    inst_set@.take(i as int),
                ),
            decreases inst_set@.len() - i,
        {
            let ins = inst_set[i];
            let ghost next = inst_set@.take(i + 1);
            let ghost before = states@;
            let ghost pairs = states@.map_values(|s: CpuState| state_pair(s));
            assert(next.drop_last() =~= inst_set@.take(i as int));
            assert(next.last() == ins);
            assert(pairs.last() == state_pair(before.last()));
            let mut prev = states[states.len() - 1];
            if prev.cycles > usize::MAX - ins.cycles() {
                proof {
                    let all = spec_states(next);
                    let (c, v) = all[all.len() - 1];
                    assert(c > usize::MAX);
                }
                return None;
            }
            match ins {
                Instruction::Noop => {
                    prev.cycles += 1;
                    states.push(prev);
                    assert(states@.map_values(|s: CpuState| state_pair(s)) =~= pairs.push(
                        state_pair(prev),
                    ));
                },
                Instruction::Add(n) => {
                    prev.cycles += 1;
                    states.push(prev);
                    let ghost mid = prev;
                    prev.cycles += 1;
                    match prev.register_value.checked_add(n) {
                        Some(v) => {
                            prev.register_value = v;
                        },
                        None => {
                            proof {
                                let all = spec_states(next);
                                let (c, v) = all[all.len() - 1];
                                assert(!(i64::MIN <= v <= i64::MAX));
                            }
                            return None;
                        },
                    }
                    states.push(prev);
                    assert(states@.map_values(|s: CpuState| state_pair(s)) =~= pairs.push(
                        state_pair(mid),
                    ).push(state_pair(prev)));
                },
            }
            i += 1;
        }
        assert(inst_set@.take(i as int) =~= inst_set@);
        proof {
            lemma_states_by_cycle(inst_set@);
            let pairs = states@.map_values(|s: CpuState| state_pair(s));
            assert forall|k: int| 0 <= k < states@.len() implies (#[trigger] states@[k]).cycles
                == k by {
                assert(pairs[k] == state_pair(states@[k]));
                assert(spec_states(inst_set@)[k].0 == k);
            }
        }
        Some(states)
    }
}

impl Default for CpuState {
    fn default() -> (s: Self)
        ensures
            s.register_value == 1,
            s.cycles == 0,
    {
        CpuState { register_value: 1, cycles: 0 }
    }
}

/// The width of the screen.
pub const COLUMNS: usize = 40;

/// The height of the screen.
pub const ROWS: usize = 6;

/// The screen: one pixel per cycle, row by row.
pub struct Screen {
    pub cpu_states: Vec<CpuState>,
}

impl Screen {
    /// The screen that a program drives, or nothing where a number grows
    /// too large for the machine while the program runs.
    pub fn new(instructions: &Vec<Instruction>) -> (r: Option<Self>)
        ensures
            match r {
                Some(s) => s.cpu_states@.map_values(|s: CpuState| state_pair(s)) == spec_states(
                    instructions@,
                ),
                None => exists|k: int, j: int|
                    0 <= k <= instructions@.len() && 0 <= j < spec_states(
                        #[trigger] instructions@.take(k),
                    ).len() && {
                        let (c, v) = #[trigger] spec_states(instructions@.take(k))[j];
                        c > usize::MAX || !(i64::MIN <= v <= i64::MAX)
                    },
            },
    {
        match CpuState::cycle_states(instructions) {
            Some(cpu_states) => Some(Screen { cpu_states }),
            None => None,
        }
    }

    /// Whether the pixel at `row` and `col` is lit: the register, as it
    /// stands when the pixel is drawn, is at most one away from the column.
    pub open spec fn lit(&self, row: int, col: int) -> bool {
        let delta = self.cpu_states@[col + COLUMNS * row].register_value - col;
        -1 <= delta <= 1
    }

    /// The picture, row by row: `#` for a lit pixel and `.` for a dark one.
    /// Nothing where the program was too short to draw the whole screen.
    pub fn render(&self) -> (r: Option<Vec<Vec<u8>>>)
        ensures
            r is Some <==> self.cpu_states@.len() >= COLUMNS * ROWS,
            r is Some ==> {
                &&& r->0@.len() == ROWS
                &&& forall|row: int, col: int|
                    0 <= row < ROWS && 0 <= col < COLUMNS ==> (#[trigger] r->0@[row]@[col]) == if self.lit(
                        row,
                        col,
                    ) {
                        35u8
                    } else {
                        46u8
                    }
                &&& forall|row: int| 0 <= row < ROWS ==> (#[trigger] r->0@[row])@.len() == COLUMNS
            },
    {
        if self.cpu_states.len() < COLUMNS * ROWS {
            return None;
        }
        let mut out: Vec<Vec<u8>> = Vec::new();
        let mut row: usize = 0;
        while row < ROWS
            invariant
                row <= ROWS,
                self.cpu_states@.len() >= COLUMNS * ROWS,
                out@.len() == row,
                forall|y: int, x: int|
                    0 <= y < row && 0 <= x < COLUMNS ==> (#[trigger] out@[y]@[x]) == if self.lit(
                        y,
                        x,
                    ) {
                        35u8
                    } else {
                        46u8
                    },
                forall|y: int| 0 <= y < row ==> (#[trigger] out@[y])@.len() == COLUMNS,
            decreases ROWS - row,
        {
            let mut line: Vec<u8> = Vec::new();
            let mut col: usize = 0;
            while col < COLUMNS
                invariant
                    col <= COLUMNS,
                    row < ROWS,
                    self.cpu_states@.len() >= COLUMNS * ROWS,
                    line@.len() == col,
                    forall|x: int|
                        0 <= x < col ==> (#[trigger] line@[x]) == if self.lit(row as int, x) {
                            35u8
                        } else {
                            46u8
                        },
                decreases COLUMNS - col,
            {
                let idx: usize = col + COLUMNS * row;
                let v: i128 = self.cpu_states[idx].register_value as i128;
                let delta: i128 = v - col as i128;
                if -1 <= delta && delta <= 1 {
                    line.push(35);
                } else {
                    line.push(46);
                }
                col += 1;
            }
            out.push(line);
            row += 1;
        }
        Some(out)
    }
}

/// The instruction that `s` begins with, `noop` or `addx` with a number,
/// and how many bytes it takes.
pub open spec fn spec_instruction_at(s: Seq<u8>) -> Option<(Instruction, nat)> {
    if has_at(s, 0, seq![110u8, 111u8, 111u8, 112u8]) {
        Some((Instruction::Noop, 4nat))
    } else if has_at(s, 0, seq![97u8, 100u8, 100u8, 120u8, 32u8]) {
        match spec_signed_at(s.skip(5), i64::MIN as int, i64::MAX as int) {
            Some((v, n)) => Some((Instruction::Add(v as i64), 5 + n)),
            None => None,
        }
    } else {
        None
    }
}

/// How many bytes the instruction that `s` begins with takes, the line feed
/// after it included where there is one.
pub open spec fn spec_step(s: Seq<u8>) -> nat {
    let n = match spec_instruction_at(s) {
        Some((_, n)) => n,
        None => 0,
    };
    if n < s.len() && s[n as int] == NEWLINE {
        n + 1
    } else {
        n
    }
}

/// The instructions that `s` begins with, each followed by at most one line
/// feed, as many as can be read.
pub open spec fn spec_program(s: Seq<u8>) -> Seq<Instruction>
    decreases s.len(),
{
    match spec_instruction_at(s) {
        Some((ins, n)) => if 0 < spec_step(s) <= s.len() {
            seq![ins] + spec_program(s.skip(spec_step(s) as int))
        } else {
            seq![ins]
        },
        None => Seq::empty(),
    }
}

/// How many bytes the instructions that `s` begins with take.
pub open spec fn spec_program_len(s: Seq<u8>) -> nat
    decreases s.len(),
{
    match spec_instruction_at(s) {
        Some((ins, n)) => if 0 < spec_step(s) <= s.len() {
            spec_step(s) + spec_program_len(s.skip(spec_step(s) as int))
        } else {
            spec_step(s)
        },
        None => 0,
    }
}

/// Reads the instruction that starts at `pos`. Gives it and the position
/// after it.
pub fn parse_instruction(b: &[u8], pos: usize) -> (r: Option<(Instruction, usize)>)
    requires
        pos <= b@.len(),
    ensures
        match spec_instruction_at(b@.skip(pos as int)) {
            Some((ins, n)) => r == Some((ins, (pos + n) as usize)) && pos + n <= b@.len(),
            None => r is None,
        },
{
    let ghost s = b@.skip(pos as int);
    let noop: [u8; 4] = [110, 111, 111, 112];
    let addx: [u8; 5] = [97, 100, 100, 120, 32];
    assert(noop@ =~= seq![110u8, 111u8, 111u8, 112u8]);
    assert(addx@ =~= seq![97u8, 100u8, 100u8, 120u8, 32u8]);
    proof {
        lemma_has_at_skip(b@, pos as int, noop@);
        lemma_has_at_skip(b@, pos as int, addx@);
        assert(b.len() == b@.len());
    }
    if starts_with(b, pos, noop.as_slice()) {
        Some((Instruction::Noop, pos + 4))
    } else if starts_with(b, pos, addx.as_slice()) {
        assert(s.skip(5) =~= b@.skip(pos + 5));
        match scan_signed(b, pos + 5, i64::MIN, i64::MAX) {
            Some((v, end)) => Some((Instruction::Add(v), end)),
            None => None,
        }
    } else {
        None
    }
}

/// What stands at `pos` stands at the beginning of what is left from `pos`.
pub proof fn lemma_has_at_skip(s: Seq<u8>, pos: int, lit: Seq<u8>)
    requires
        0 <= pos <= s.len(),
    ensures
        has_at(s, pos, lit) == has_at(s.skip(pos), 0, lit),
{
    if pos + lit.len() <= s.len() {
        assert(s.skip(pos).subrange(0, lit.len() as int) =~= s.subrange(pos, pos + lit.len()));
    }
}

/// Reads a program: instructions, each followed by at most one line feed,
/// as many as can be read, and at least one. Gives them and the number of
/// bytes that they take.
pub fn parse_input(i: &str) -> (r: Option<(Vec<Instruction>, usize)>)
    ensures
        match r {
            Some((program, used)) => {
                &&& program@ == spec_program(i.spec_bytes())
                &&& used == spec_program_len(i.spec_bytes())
                &&& program@.len() > 0
            },
            None => spec_program(i.spec_bytes()).len() == 0,
        },
{
    let b = i.as_bytes();
    let mut out: Vec<Instruction> = Vec::new();
    let mut pos: usize = 0;
    assert(b@.skip(0) =~= b@);
    loop
        invariant
            pos <= b@.len(),
            b@ == i.spec_bytes(),
            spec_program(b@) == out@ + spec_program(b@.skip(pos as int)),
            spec_program_len(b@) == pos + spec_program_len(b@.skip(pos as int)),
        ensures
            spec_program(b@) == out@,
            spec_program_len(b@) == pos,
        decreases b@.len() - pos,
    {
        let ghost s = b@.skip(pos as int);
        match parse_instruction(b, pos) {
            Some((ins, end)) => {
                let ghost before = out@;
                out.push(ins);
                let next: usize = if end < b.len() && b[end] == NEWLINE {
                    end + 1
                } else {
                    end
                };
                proof {
                    if end < b@.len() {
                        assert(s[end - pos] == b@[end as int]);
                    }
                    assert(next - pos == spec_step(s));
                    assert(s.skip(next - pos) =~= b@.skip(next as int));
                    assert(out@ =~= before + seq![ins]);
                    assert(spec_program(s) == seq![ins] + spec_program(b@.skip(next as int)));
                    assert(out@ + spec_program(b@.skip(next as int)) =~= before + spec_program(s));
                }
                pos = next;
            },
            None => {
                assert(out@ + Seq::<Instruction>::empty() =~= out@);
                break ;
            },
        }
    }
    if out.len() == 0 {
        None
    } else {
        Some((out, pos))
    }
}

} // verus!
