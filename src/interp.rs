use vstd::prelude::*;
use crate::token::{Token, scan, tokenize, lemma_scan_keeps_symbols, is_symbol};
use crate::parser::{
    Command, Node, command_node, nodes, parse, parse_from, lemma_unclosed_loop_extends_to_end,
};
use crate::tape::{RunError, Tape, TAPE_LEN, wrap_inc, wrap_dec};

verus! {

/// The mathematical model of a run in progress.
pub struct State {
    pub pointer: int,
    pub cells: Seq<u8>,
    /// All bytes offered to the program.
    pub input: Seq<u8>,
    /// How many of them it has read.
    pub read: int,
    /// The bytes it has written, in order.
    pub output: Seq<u8>,
}

/// A tape together with the program's input and output.
pub struct Machine {
    pub tape: Tape,
    pub input: Vec<u8>,
    pub read: usize,
    pub output: Vec<u8>,
}

impl View for Machine {
    type V = State;

    open spec fn view(&self) -> State {
        State {
            pointer: self.tape.pointer as int,
            cells: self.tape.cells(),
            input: self.input@,
            read: self.read as int,
            output: self.output@,
        }
    }
}

/// A fresh tape with `input` unread and nothing written.
pub open spec fn initial(input: Seq<u8>) -> State {
    State {
        pointer: 0,
        cells: Seq::new(TAPE_LEN as nat, |i: int| 0u8),
        input,
        read: 0,
        output: seq![],
    }
}

/// The effect of one primitive token.
pub open spec fn step(t: Token, s: State) -> (State, Result<(), RunError>) {
    let v = s.cells[s.pointer];
    match t {
        Token::IncrementPointer => if s.pointer + 1 < TAPE_LEN {
            (State { pointer: s.pointer + 1, ..s }, Ok(()))
        } else {
            (s, Err(RunError::PointerPastEnd))
        },
        Token::DecrementPointer => if s.pointer > 0 {
            (State { pointer: s.pointer - 1, ..s }, Ok(()))
        } else {
            (s, Err(RunError::PointerBelowStart))
        },
        Token::IncrementCell => (State { cells: s.cells.update(s.pointer, wrap_inc(v)), ..s }, Ok(())),
        Token::DecrementCell => (State { cells: s.cells.update(s.pointer, wrap_dec(v)), ..s }, Ok(())),
        Token::PrintCell => (State { output: s.output.push(v), ..s }, Ok(())),
        Token::Input => if s.read < s.input.len() {
            (
                State { cells: s.cells.update(s.pointer, s.input[s.read]), read: s.read + 1, ..s },
                Ok(()),
            )
        } else {
            (s, Err(RunError::InputExhausted))
        },
        Token::LoopStart | Token::LoopEnd => (s, Ok(())),
    }
}

/// Runs a sequence of commands in order, stopping at the first error. A loop
/// entered with `fuel` may iterate at most `fuel` times, and the body of each
/// iteration runs with the fuel that is left after it.
pub open spec fn run_seq(ns: Seq<Node>, s: State, fuel: nat) -> (State, Result<(), RunError>)
    decreases fuel, ns.len(),
{
    if ns.len() == 0 {
        (s, Ok(()))
    } else {
        let (s1, r) = match ns[0] {
            Node::Do(t) => step(t, s),
            Node::Loop(body) => run_loop(body, s, fuel),
        };
        if r is Err {
            (s1, r)
        } else {
            run_seq(ns.drop_first(), s1, fuel)
        }
    }
}

/// Runs a loop: while the cell under the pointer is nonzero, runs the body.
pub open spec fn run_loop(body: Seq<Node>, s: State, fuel: nat) -> (State, Result<(), RunError>)
    decreases fuel, 0nat,
{
    if s.cells[s.pointer] == 0 {
        (s, Ok(()))
    } else if fuel == 0 {
        (s, Err(RunError::OutOfFuel))
    } else {
        let (s1, r) = run_seq(body, s, (fuel - 1) as nat);
        if r is Err {
            (s1, r)
        } else {
            run_loop(body, s1, (fuel - 1) as nat)
        }
    }
}

impl Machine {
    pub open spec fn wf(&self) -> bool {
        self.tape.wf() && self.read <= self.input@.len()
    }

    /// A fresh tape that will read from `input`.
    pub fn new(input: Vec<u8>) -> (m: Machine)
        ensures
            m.wf(),
            m@ == initial(input@),
    {
        Machine { tape: Tape::new(), input, read: 0, output: Vec::new() }
    }

    /// Carries out one primitive token.
    fn perform(&mut self, t: Token) -> (r: Result<(), RunError>)
        requires
            old(self).wf(),
        ensures
            final(self).wf(),
            (final(self)@, r) == step(t, old(self)@),
    {
        match t {
            Token::IncrementPointer => self.tape.increment_pointer(),
            Token::DecrementPointer => self.tape.decrement_pointer(),
            Token::IncrementCell => {
                self.tape.increment_cell();
                Ok(())
            },
            Token::DecrementCell => {
                self.tape.decrement_cell();
                Ok(())
            },
            Token::PrintCell => {
                let v = self.tape.get_data();
                self.output.push(v);
                Ok(())
            },
            Token::Input => {
                if self.read < self.input.len() {
                    let b = self.input[self.read];
                    self.tape.input_to_cell(b);
                    self.read += 1;
                    Ok(())
                } else {
                    Err(RunError::InputExhausted)
                }
            },
            Token::LoopStart | Token::LoopEnd => Ok(()),
        }
    }
}

proof fn lemma_nodes_index(cs: Seq<Command>)
    ensures
        nodes(cs).len() == cs.len(),
        forall|i: int| 0 <= i < cs.len() ==> #[trigger] nodes(cs)[i] == command_node(cs[i]),
    decreases cs.len(),
{
    if cs.len() > 0 {
        lemma_nodes_index(cs.drop_last());
    }
}

/// Runs `program` on the machine: each command in order, each loop while the
/// cell under the pointer is nonzero, stopping at the first error. A loop may
/// iterate at most `fuel` times, each iteration's body running with the fuel
/// left after it; a run that needs more stops with `OutOfFuel`.
pub fn run(program: &Vec<Command>, m: &mut Machine, fuel: u64) -> (r: Result<(), RunError>)
    requires
        old(m).wf(),
    ensures
        final(m).wf(),
        (final(m)@, r) == run_seq(nodes(program@), old(m)@, fuel as nat),
    decreases fuel,
{
    let ghost ns = nodes(program@);
    proof { lemma_nodes_index(program@); }
    let mut i: usize = 0;
    assert(ns.skip(0) =~= ns);
    while i < program.len()
        invariant
            m.wf(),
            i <= program@.len(),
            ns == nodes(program@),
            ns.len() == program@.len(),
            forall|j: int| 0 <= j < program@.len() ==> #[trigger] ns[j] == command_node(program@[j]),
            run_seq(ns, old(m)@, fuel as nat) == run_seq(ns.skip(i as int), m@, fuel as nat),
        decreases program@.len() - i,
    {
        let ghost s0 = m@;
        assert(ns.skip(i as int).drop_first() =~= ns.skip(i + 1));
        assert(ns.skip(i as int)[0] == ns[i as int]);
        match &program[i] {
            Command::Do(t) => {
                match m.perform(*t) {
                    Err(e) => {
                        return Err(e);
                    },
                    Ok(()) => {},
                }
            },
            Command::Loop(body) => {
                let mut f = fuel;
                while m.tape.get_data() != 0
                    invariant
                        m.wf(),
                        f <= fuel,
                        run_loop(nodes(body@), s0, fuel as nat) == run_loop(nodes(body@), m@, f as nat),
                        ns.skip(i as int)[0] == Node::Loop(nodes(body@)),
                        ns.skip(i as int).len() > 0,
                        ns == nodes(program@),
                        run_seq(ns, old(m)@, fuel as nat) == run_seq(ns.skip(i as int), s0, fuel as nat),
                    decreases f,
                {
                    if f == 0 {
                        assert(run_loop(nodes(body@), m@, 0) == (m@, Err::<(), RunError>(RunError::OutOfFuel)));
                        return Err(RunError::OutOfFuel);
                    }
                    f -= 1;
                    let ghost s1 = m@;
                    match run(body, m, f) {
                        Err(e) => {
                            assert(run_loop(nodes(body@), s1, (f + 1) as nat) == (m@, Err::<(), RunError>(e)));
                            return Err(e);
                        },
                        Ok(()) => {},
                    }
                }
            },
        }
        i += 1;
    }
    assert(ns.skip(i as int) =~= seq![]);
    Ok(())
}

/// The outcome of running `source` on a fresh tape with `input` to read.
pub open spec fn outcome(source: Seq<u8>, input: Seq<u8>, fuel: nat) -> (State, Result<(), RunError>) {
    run_seq(parse_from(scan(source), 0).0, initial(input), fuel)
}

/// Scans, parses and runs `source` on a fresh tape that reads from `input`.
/// Returns the machine as the run left it, and why the run stopped.
pub fn execute(source: Vec<u8>, input: Vec<u8>, fuel: u64) -> (r: (Machine, Result<(), RunError>))
    requires
        source@.len() <= isize::MAX,
    ensures
        r.0.wf(),
        (r.0@, r.1) == outcome(source@, input@, fuel as nat),
{
    proof {
        lemma_scan_keeps_symbols(source@);
        source@.lemma_filter_len(|b: u8| is_symbol(b));
    }
    let tokens = tokenize(source);
    let (program, _) = parse(0, &tokens);
    let mut m = Machine::new(input);
    let r = run(&program, &mut m, fuel);
    (m, r)
}

/// A loop with an empty body on a nonzero cell never finishes: whatever the
/// fuel, it runs out, and the state stays as it was.
pub proof fn lemma_empty_loop_spins(s: State, fuel: nat)
    requires
        s.cells[s.pointer] != 0,
    ensures
        run_loop(seq![], s, fuel) == (s, Err::<(), RunError>(RunError::OutOfFuel)),
    decreases fuel,
{
    if fuel > 0 {
        assert(run_seq(seq![], s, (fuel - 1) as nat) == (s, Ok::<(), RunError>(())));
        lemma_empty_loop_spins(s, (fuel - 1) as nat);
    }
}

/// The program `+[]` never terminates: on any input and with any fuel, the
/// run ends only by running out of fuel.
pub proof fn lemma_spin_never_ends(input: Seq<u8>, fuel: nat)
    ensures
        outcome(seq![43u8, 91u8, 93u8], input, fuel).1 == Err::<(), RunError>(RunError::OutOfFuel),
{
    let src = seq![43u8, 91u8, 93u8];
    let a2 = seq![43u8, 91u8];
    let a1 = seq![43u8];
    let a0 = Seq::<u8>::empty();
    assert(src.drop_last() =~= a2 && src.last() == 93);
    assert(a2.drop_last() =~= a1 && a2.last() == 91);
    assert(a1.drop_last() =~= a0 && a1.last() == 43);
    assert(scan(a0) =~= Seq::<Token>::empty());
    assert(scan(a1) =~= seq![Token::IncrementCell]);
    assert(scan(a2) =~= seq![Token::IncrementCell, Token::LoopStart]);
    let t = seq![Token::IncrementCell, Token::LoopStart, Token::LoopEnd];
    assert(scan(src) =~= t);
    assert(parse_from(t, 2) == (Seq::<Node>::empty(), 2int));
    assert(parse_from(t, 3) == (Seq::<Node>::empty(), 3int));
    assert(parse_from(t, 1).0 =~= seq![Node::Loop(seq![])]);
    let ns = parse_from(t, 0).0;
    assert(ns =~= seq![Node::Do(Token::IncrementCell), Node::Loop(seq![])]);
    let s0 = initial(input);
    let (s1, r1) = step(Token::IncrementCell, s0);
    assert(s1.cells[0] == 1);
    lemma_empty_loop_spins(s1, fuel);
    assert(ns.drop_first() =~= seq![Node::Loop(seq![])]);
    assert(ns.drop_first().drop_first() =~= seq![]);
    assert(r1 == Ok::<(), RunError>(()));
    assert(ns.drop_first()[0] == Node::Loop(seq![]));
    assert(run_seq(ns.drop_first(), s1, fuel) == (s1, Err::<(), RunError>(RunError::OutOfFuel)));
    assert(run_seq(ns, s0, fuel) == (s1, Err::<(), RunError>(RunError::OutOfFuel)));
}

/// A source that leaves a `[` open runs exactly as the same source with a
/// `]` appended: the open loop extends to the end of the program.
pub proof fn lemma_unclosed_loop_runs_to_end(source: Seq<u8>, input: Seq<u8>, fuel: nat)
    requires
        parse_from(scan(source), 0).1 > scan(source).len(),
    ensures
        outcome(source.push(93u8), input, fuel) == outcome(source, input, fuel),
{
    assert(source.push(93u8).drop_last() =~= source);
    assert(scan(source.push(93u8)) == scan(source).push(Token::LoopEnd));
    lemma_unclosed_loop_extends_to_end(scan(source));
}

} // verus!
