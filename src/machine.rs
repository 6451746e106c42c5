//! The execution engine: a fixed-capacity circular tape, a head and a
//! current state, stepped through a transition table until no rule applies.
use vstd::prelude::*;

use crate::rule::Direction;
use crate::table::{Act, Key, TransitionTable};
use crate::text::{
    chars_of, comma, find_char, lemma_comma_first, lemma_comma_none, split_pat, strip_range,
    string_of, trim,
};

verus! {

/// The symbol of an empty cell.
pub const BLANK: char = '_';

/// The number of cells of the tape that a run gets unless told otherwise.
pub const TAPE_CAPACITY: usize = 256;

/// The state every run starts in.
pub open spec fn start_state() -> Seq<char> {
    seq!['q', '0']
}

/// A tape of `cap` cells holding `input` from cell 0, blank elsewhere;
/// what does not fit is dropped.
pub open spec fn initial_tape(input: Seq<char>, cap: nat) -> Seq<char> {
    Seq::new(cap, |i: int| if i < input.len() { input[i] } else { '_' })
}

/// One step of the head on a circular tape of `cap` cells.
pub open spec fn step_head(head: int, cap: int, d: Direction) -> int {
    match d {
        Direction::Right => if head + 1 == cap {
            0
        } else {
            head + 1
        },
        Direction::Left => if head == 0 {
            cap - 1
        } else {
            head - 1
        },
    }
}

/// A configuration of the machine: its state, head and tape.
pub struct Config {
    pub state: Seq<char>,
    pub head: int,
    pub tape: Seq<char>,
}

pub open spec fn initial_config(input: Seq<char>, cap: nat) -> Config {
    Config { state: start_state(), head: 0, tape: initial_tape(input, cap) }
}

/// The configuration after one step under the table `m`, or `None` where
/// no rule applies and the machine halts.
pub open spec fn next(m: Map<Key, Act>, c: Config) -> Option<Config> {
    let k = (c.state, c.tape[c.head]);
    if m.contains_key(k) {
        let a = m[k];
        Some(
            Config {
                state: a.0,
                head: step_head(c.head, c.tape.len() as int, a.2),
                tape: c.tape.update(c.head, a.1),
            },
        )
    } else {
        None
    }
}

/// The configuration after at most `n` steps: fewer where it halts.
pub open spec fn run_for(m: Map<Key, Act>, c: Config, n: nat) -> Config
    decreases n,
{
    if n == 0 {
        c
    } else {
        match next(m, c) {
            Some(c2) => run_for(m, c2, (n - 1) as nat),
            None => c,
        }
    }
}

/// With no rules the machine halts at once, in state `q0` with the head on
/// cell 0, whatever the number of steps allowed; it is accepted exactly when
/// `q0` is an accepting state.
pub proof fn law_empty_table_halts(input: Seq<char>, cap: nat, accepting: Seq<Seq<char>>, n: nat)
    requires
        cap > 0,
    ensures
        next(Map::empty(), initial_config(input, cap)) is None,
        run_for(Map::empty(), initial_config(input, cap), n) == initial_config(input, cap),
        initial_config(input, cap).state == start_state(),
        initial_config(input, cap).head == 0,
        (verdict_of(accepting, initial_config(input, cap).state) == Verdict::Accepted)
            == accepting.contains(start_state()),
{
}

/// The head wraps at both ends of the tape: left from cell 0 reaches the
/// last cell, right from the last cell reaches cell 0.
pub proof fn law_head_wraps(cap: int)
    requires
        cap > 0,
    ensures
        step_head(0, cap, Direction::Left) == cap - 1,
        step_head(cap - 1, cap, Direction::Right) == 0,
{
}

/// An input longer than the tape leaves only its first `cap` characters on
/// it.
pub proof fn law_input_truncated(input: Seq<char>, cap: nat)
    requires
        input.len() >= cap,
    ensures
        initial_tape(input, cap) == input.subrange(0, cap as int),
{
    assert(initial_tape(input, cap) =~= input.subrange(0, cap as int));
}

/// How a halted run ends.
#[derive(Clone, Copy, Debug, PartialEq, Eq, Structural)]
pub enum Verdict {
    /// Halted in an accepting state.
    Accepted,
    /// Halted in any other state.
    Error,
}

pub open spec fn verdict_of(accepting: Seq<Seq<char>>, state: Seq<char>) -> Verdict {
    if accepting.contains(state) {
        Verdict::Accepted
    } else {
        Verdict::Error
    }
}

/// The accepting states that a description's first line names: its
/// comma-separated fields, trimmed.
pub open spec fn accepting_of(line: Seq<char>) -> Seq<Seq<char>> {
    split_pat(line, comma()).map_values(|f: Seq<char>| trim(f))
}

pub open spec fn views_of(v: Seq<String>) -> Seq<Seq<char>> {
    v.map_values(|s: String| s@)
}

/// Reads the accepting states from a description's first line.
pub fn parse_accepting(line: &str) -> (r: Vec<String>)
    ensures
        views_of(r@) == accepting_of(line@),
{
    let cs = chars_of(line);
    let ghost w = cs@;
    let n = cs.len();
    let mut out: Vec<String> = Vec::new();
    let mut start: usize = 0;
    assert(w.subrange(0, n as int) =~= w);
    loop
        invariant
            start <= n == w.len(),
            cs@ == w,
            w == line@,
            accepting_of(w) == views_of(out@) + split_pat(
                w.subrange(start as int, n as int),
                comma(),
            ).map_values(|f: Seq<char>| trim(f)),
        decreases n - start,
    {
        let ghost done = views_of(out@);
        match find_char(&cs, start, n, ',') {
            Some(k) => {
                proof {
                    lemma_comma_first(w, start as int, n as int, k as int);
                }
                let (a, b) = strip_range(&cs, start, k, false);
                let f = string_of(line, a, b);
                let ghost rest = split_pat(w.subrange(k + 1, n as int), comma());
                out.push(f);
                assert(views_of(out@) =~= done + seq![trim(w.subrange(start as int, k as int))]);
                assert((seq![w.subrange(start as int, k as int)] + rest).map_values(
                    |f: Seq<char>| trim(f),
                ) =~= seq![trim(w.subrange(start as int, k as int))] + rest.map_values(
                    |f: Seq<char>| trim(f),
                ));
                start = k + 1;
            },
            None => {
                proof {
                    lemma_comma_none(w, start as int, n as int);
                }
                let (a, b) = strip_range(&cs, start, n, false);
                let f = string_of(line, a, b);
                out.push(f);
                assert(views_of(out@) =~= done + seq![trim(w.subrange(start as int, n as int))]);
                assert(seq![w.subrange(start as int, n as int)].map_values(|f: Seq<char>| trim(f))
                    =~= seq![trim(w.subrange(start as int, n as int))]);
                return out;
            },
        }
    }
}

/// Moves the head one cell on a circular tape of `capacity` cells.
pub fn move_head(head: usize, capacity: usize, dir: Direction) -> (r: usize)
    requires
        head < capacity,
    ensures
        r == step_head(head as int, capacity as int, dir),
        r < capacity,
{
    match dir {
        Direction::Right => if head + 1 == capacity {
            0
        } else {
            head + 1
        },
        Direction::Left => if head == 0 {
            capacity - 1
        } else {
            head - 1
        },
    }
}

/// A machine in the middle of a run.
pub struct Machine {
    pub state: String,
    pub head: usize,
    pub tape: Vec<char>,
}

impl View for Machine {
    type V = Config;

    open spec fn view(&self) -> Config {
        Config { state: self.state@, head: self.head as int, tape: self.tape@ }
    }
}

impl Machine {
    /// The head stands on the tape.
    pub open spec fn wf(&self) -> bool {
        self.head < self.tape@.len()
    }

    /// A machine in state `q0`, head on cell 0, with `input` written from
    /// cell 0 of a blank tape of `capacity` cells; what does not fit is
    /// dropped.
    pub fn new(input: &str, capacity: usize) -> (r: Machine)
        requires
            capacity > 0,
        ensures
            r.wf(),
            r@ == initial_config(input@, capacity as nat),
    {
        let cs = chars_of(input);
        let mut tape: Vec<char> = Vec::new();
        let mut i: usize = 0;
        while i < capacity
            invariant
                i <= capacity,
                cs@ == input@,
                tape@ == initial_tape(input@, capacity as nat).subrange(0, i as int),
            decreases capacity - i,
        {
            if i < cs.len() {
                tape.push(cs[i]);
            } else {
                tape.push(BLANK);
            }
            i = i + 1;
            assert(tape@ =~= initial_tape(input@, capacity as nat).subrange(0, i as int));
        }
        assert(tape@ =~= initial_tape(input@, capacity as nat));
        let state = String::from_str("q0");
        proof {
            reveal_strlit("q0");
        }
        assert(state@ =~= start_state());
        Machine { state, head: 0, tape }
    }

    /// Whether no rule applies to the current state and symbol.
    pub fn is_halted(&self, table: &TransitionTable) -> (r: bool)
        requires
            self.wf(),
            table.wf(),
        ensures
            r == next(table@, self@) is None,
    {
        table.lookup(&self.state, self.tape[self.head]).is_none()
    }

    /// Applies the rule for the current state and symbol, if there is one:
    /// writes its symbol, moves the head and takes its state. Returns
    /// whether a rule applied; where none did, the machine has halted and
    /// is unchanged.
    pub fn step(&mut self, table: &TransitionTable) -> (r: bool)
        requires
            old(self).wf(),
            table.wf(),
        ensures
            final(self).wf(),
            match next(table@, old(self)@) {
                Some(c) => r && final(self)@ == c,
                None => !r && final(self)@ == old(self)@,
            },
    {
        let sym = self.tape[self.head];
        match table.lookup(&self.state, sym) {
            Some(a) => {
                let cap = self.tape.len();
                self.tape.set(self.head, a.write);
                self.head = move_head(self.head, cap, a.dir);
                self.state = a.to;
                true
            },
            None => false,
        }
    }

    /// Steps at most `max_steps` times, stopping early where the machine
    /// halts. Returns whether it has halted.
    pub fn run(&mut self, table: &TransitionTable, max_steps: u64) -> (r: bool)
        requires
            old(self).wf(),
            table.wf(),
        ensures
            final(self).wf(),
            final(self)@ == run_for(table@, old(self)@, max_steps as nat),
            r == next(table@, final(self)@) is None,
    {
        let mut i: u64 = 0;
        while i < max_steps
            invariant
                i <= max_steps,
                self.wf(),
                table.wf(),
                run_for(table@, self@, (max_steps - i) as nat) == run_for(
                    table@,
                    old(self)@,
                    max_steps as nat,
                ),
            decreases max_steps - i,
        {
            let ghost before = self@;
            if !self.step(table) {
                assert(run_for(table@, before, (max_steps - i) as nat) == before);
                return true;
            }
            i = i + 1;
        }
        assert(run_for(table@, self@, 0) == self@);
        self.is_halted(table)
    }

    /// The verdict of a halted run: accepted where the state is one of
    /// `accepting`.
    pub fn verdict(&self, accepting: &Vec<String>) -> (r: Verdict)
        ensures
            r == verdict_of(views_of(accepting@), self.state@),
    {
        let mut i: usize = 0;
        while i < accepting.len()
            invariant
                i <= accepting@.len(),
                forall|m: int| 0 <= m < i ==> accepting@[m]@ != self.state@,
            decreases accepting@.len() - i,
        {
            if accepting[i] == self.state {
                assert(views_of(accepting@)[i as int] == self.state@);
                return Verdict::Accepted;
            }
            i = i + 1;
        }
        assert(!views_of(accepting@).contains(self.state@));
        Verdict::Error
    }
}

} // verus!
