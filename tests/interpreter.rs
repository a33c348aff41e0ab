use bf::{Command, Machine, RunError, TAPE_LEN, Tape, Token, execute, parse, run, tokenize};

const FUEL: u64 = 100_000;

fn leaves(cs: &Vec<Command>, out: &mut Vec<Token>) {
    for c in cs {
        match c {
            Command::Do(t) => out.push(*t),
            Command::Loop(body) => leaves(body, out),
        }
    }
}

fn compile(src: &str) -> Vec<Command> {
    parse(0, &tokenize(src.as_bytes().to_vec())).0
}

#[test]
fn scanning_keeps_only_symbols_in_order() {
    let src = b"a+b-c>d<e.f,g[h]i \n+".to_vec();
    let toks = tokenize(src.clone());
    let symbols = src.iter().filter(|b| b"<>+-.,[]".contains(b)).count();
    assert_eq!(toks.len(), symbols);
    assert_eq!(
        toks,
        vec![
            Token::IncrementCell,
            Token::DecrementCell,
            Token::IncrementPointer,
            Token::DecrementPointer,
            Token::PrintCell,
            Token::Input,
            Token::LoopStart,
            Token::LoopEnd,
            Token::IncrementCell,
        ]
    );
}

#[test]
fn scanning_empty_and_prose() {
    assert!(tokenize(Vec::new()).is_empty());
    assert!(tokenize(b"hello world".to_vec()).is_empty());
}

#[test]
fn balanced_parse_flattens_to_unbracketed_tokens() {
    let src = "++[>+[-<]>.]<,[]";
    let toks = tokenize(src.as_bytes().to_vec());
    let (program, stop) = parse(0, &toks);
    assert_eq!(stop, toks.len());
    let mut flat = Vec::new();
    leaves(&program, &mut flat);
    let stripped: Vec<Token> = toks
        .iter()
        .copied()
        .filter(|t| *t != Token::LoopStart && *t != Token::LoopEnd)
        .collect();
    assert_eq!(flat, stripped);
}

#[test]
fn parse_builds_nested_loops() {
    let program = compile("+[>[-]<]");
    assert_eq!(
        program,
        vec![
            Command::Do(Token::IncrementCell),
            Command::Loop(vec![
                Command::Do(Token::IncrementPointer),
                Command::Loop(vec![Command::Do(Token::DecrementCell)]),
                Command::Do(Token::DecrementPointer),
            ]),
        ]
    );
}

#[test]
fn parse_from_inner_index_stops_at_close() {
    let toks = tokenize(b"[+-]+".to_vec());
    let (body, stop) = parse(1, &toks);
    assert_eq!(body, vec![Command::Do(Token::IncrementCell), Command::Do(Token::DecrementCell)]);
    assert_eq!(stop, 3);
}

#[test]
fn unclosed_brackets_run_past_the_end() {
    let toks = tokenize(b"[[".to_vec());
    let (program, stop) = parse(0, &toks);
    assert_eq!(program, vec![Command::Loop(vec![Command::Loop(vec![])])]);
    assert_eq!(stop, 4);
}

#[test]
fn stray_close_ends_top_level() {
    let toks = tokenize(b"+]+".to_vec());
    let (program, stop) = parse(0, &toks);
    assert_eq!(program, vec![Command::Do(Token::IncrementCell)]);
    assert_eq!(stop, 1);
}

#[test]
fn cell_increment_wraps_255_to_0() {
    let mut t = Tape::new();
    for _ in 0..255 {
        t.increment_cell();
    }
    assert_eq!(t.get_data(), 255);
    t.increment_cell();
    assert_eq!(t.get_data(), 0);
}

#[test]
fn cell_decrement_wraps_0_to_255() {
    let mut t = Tape::new();
    t.decrement_cell();
    assert_eq!(t.get_data(), 255);
}

#[test]
fn pointer_moves_and_bounds() {
    let mut t = Tape::new();
    assert_eq!(t.decrement_pointer(), Err(RunError::PointerBelowStart));
    assert_eq!(t.pointer, 0);
    assert_eq!(t.increment_pointer(), Ok(()));
    assert_eq!(t.pointer, 1);
    t.input_to_cell(b'x');
    assert_eq!(t.get_data(), b'x');
    assert_eq!(t.decrement_pointer(), Ok(()));
    assert_eq!(t.get_data(), 0);
    for _ in 1..TAPE_LEN {
        assert_eq!(t.increment_pointer(), Ok(()));
    }
    assert_eq!(t.pointer, TAPE_LEN - 1);
    assert_eq!(t.increment_pointer(), Err(RunError::PointerPastEnd));
    assert_eq!(t.pointer, TAPE_LEN - 1);
}

#[test]
fn hello_fragment() {
    let src = "++++++++[>++++[>++>+++>+++>+<<<<-]>+>+>->>+[<]<-]>>.>---.+++++++..+++.";
    let (m, r) = execute(src.as_bytes().to_vec(), Vec::new(), FUEL);
    assert_eq!(r, Ok(()));
    assert_eq!(m.output, b"Hello".to_vec());
}

#[test]
fn echo_three_bytes() {
    let (m, r) = execute(b",.,.,.".to_vec(), b"ABC".to_vec(), FUEL);
    assert_eq!(r, Ok(()));
    assert_eq!(m.output, b"ABC".to_vec());
    assert_eq!(m.read, 3);
}

#[test]
fn empty_loop_on_nonzero_cell_never_finishes() {
    for fuel in [0u64, 1, 10, 1000, FUEL] {
        let (m, r) = execute(b"+[]".to_vec(), Vec::new(), fuel);
        assert_eq!(r, Err(RunError::OutOfFuel));
        assert_eq!(m.tape.tape[0], 1);
    }
}

#[test]
fn decrement_on_fresh_tape_gives_255() {
    let (m, r) = execute(b"-".to_vec(), Vec::new(), FUEL);
    assert_eq!(r, Ok(()));
    assert_eq!(m.tape.tape[0], 255);
    assert_eq!(m.tape.pointer, 0);
}

#[test]
fn unmatched_open_extends_to_end() {
    let open = compile("+[+");
    assert_eq!(
        open,
        vec![Command::Do(Token::IncrementCell), Command::Loop(vec![Command::Do(Token::IncrementCell)])]
    );
    assert_eq!(open, compile("+[+]"));
    let (a, ra) = execute(b"+[+".to_vec(), Vec::new(), FUEL);
    let (b, rb) = execute(b"+[+]".to_vec(), Vec::new(), FUEL);
    assert_eq!(ra, Ok(()));
    assert_eq!(rb, Ok(()));
    assert_eq!(a.tape.tape[0], 0);
    assert_eq!(a.tape.tape.to_vec(), b.tape.tape.to_vec());
}

#[test]
fn input_exhausted_is_an_error() {
    let (m, r) = execute(b",.,".to_vec(), b"Z".to_vec(), FUEL);
    assert_eq!(r, Err(RunError::InputExhausted));
    assert_eq!(m.output, b"Z".to_vec());
}

#[test]
fn pointer_below_start_is_an_error() {
    let (m, r) = execute(b"+.<.".to_vec(), Vec::new(), FUEL);
    assert_eq!(r, Err(RunError::PointerBelowStart));
    assert_eq!(m.output, vec![1u8]);
}

#[test]
fn pointer_past_end_is_an_error() {
    let (m, r) = execute(b"+[>+]".to_vec(), Vec::new(), FUEL);
    assert_eq!(r, Err(RunError::PointerPastEnd));
    assert_eq!(m.tape.pointer, TAPE_LEN - 1);
}

#[test]
fn fuel_bounds_loop_iterations() {
    // Three iterations of the outer loop are needed.
    let (_, r) = execute(b"+++[-]".to_vec(), Vec::new(), 2);
    assert_eq!(r, Err(RunError::OutOfFuel));
    let (m, r) = execute(b"+++[-]".to_vec(), Vec::new(), 3);
    assert_eq!(r, Ok(()));
    assert_eq!(m.tape.tape[0], 0);
}

#[test]
fn run_resumes_on_an_existing_machine() {
    let program = compile(",+.");
    let mut m = Machine::new(b"a".to_vec());
    assert_eq!(run(&program, &mut m, FUEL), Ok(()));
    assert_eq!(m.output, b"b".to_vec());
    assert_eq!(run(&program, &mut m, FUEL), Err(RunError::InputExhausted));
    assert_eq!(m.output, b"b".to_vec());
}
