use vstd::prelude::*;

verus! {

/// One recognized source symbol.
#[derive(Clone, Copy, Debug, PartialEq, Eq, Structural)]
pub enum Token {
    IncrementPointer,
    DecrementPointer,
    IncrementCell,
    DecrementCell,
    PrintCell,
    Input,
    LoopStart,
    LoopEnd,
}

/// The token a source byte stands for, if it is one of the eight symbols
/// (`>` `<` `+` `-` `.` `,` `[` `]`, in that order).
pub open spec fn token_of(b: u8) -> Option<Token> {
    if b == 62 {
        Some(Token::IncrementPointer)
    } else if b == 60 {
        Some(Token::DecrementPointer)
    } else if b == 43 {
        Some(Token::IncrementCell)
    } else if b == 45 {
        Some(Token::DecrementCell)
    } else if b == 46 {
        Some(Token::PrintCell)
    } else if b == 44 {
        Some(Token::Input)
    } else if b == 91 {
        Some(Token::LoopStart)
    } else if b == 93 {
        Some(Token::LoopEnd)
    } else {
        None
    }
}

pub open spec fn is_symbol(b: u8) -> bool {
    token_of(b) is Some
}

/// The tokens of a byte sequence: each byte is read in turn, and those that
/// are not symbols contribute nothing.
pub open spec fn scan(bytes: Seq<u8>) -> Seq<Token>
    decreases bytes.len(),
{
    if bytes.len() == 0 {
        seq![]
    } else {
        let prev = scan(bytes.drop_last());
        match token_of(bytes.last()) {
            Some(t) => prev.push(t),
            None => prev,
        }
    }
}

/// The token for one source byte (`>` `<` `+` `-` `.` `,` `[` `]`), if any.
fn symbol_token(b: u8) -> (t: Option<Token>)
    ensures
        t == token_of(b),
{
    match b {
        62 => Some(Token::IncrementPointer),
        60 => Some(Token::DecrementPointer),
        43 => Some(Token::IncrementCell),
        45 => Some(Token::DecrementCell),
        46 => Some(Token::PrintCell),
        44 => Some(Token::Input),
        91 => Some(Token::LoopStart),
        93 => Some(Token::LoopEnd),
        _ => None,
    }
}

/// Scans source bytes into tokens, dropping every byte that is not a symbol.
pub fn tokenize(data: Vec<u8>) -> (tokens: Vec<Token>)
    ensures
        tokens@ == scan(data@),
{
    let mut tokens: Vec<Token> = Vec::new();
    let mut i: usize = 0;
    while i < data.len()
        invariant
            i <= data@.len(),
            tokens@ == scan(data@.take(i as int)),
        decreases data@.len() - i,
    {
        let b = data[i];
        let t = symbol_token(b);
        assert(data@.take(i + 1).drop_last() =~= data@.take(i as int));
        if let Some(t) = t {
            tokens.push(t);
        }
        i += 1;
    }
    assert(data@.take(i as int) =~= data@);
    tokens
}

/// Scanning keeps exactly the symbol bytes, in their order, each turned into
/// its token; so the number of tokens is the number of symbol bytes.
pub proof fn lemma_scan_keeps_symbols(bytes: Seq<u8>)
    ensures
        scan(bytes) == bytes.filter(|b: u8| is_symbol(b)).map_values(|b: u8| token_of(b).unwrap()),
        scan(bytes).len() == bytes.filter(|b: u8| is_symbol(b)).len(),
    decreases bytes.len(),
{
    let f = |b: u8| is_symbol(b);
    let g = |b: u8| token_of(b).unwrap();
    if bytes.len() == 0 {
        assert(bytes.filter(f) =~= seq![]);
        assert(bytes.filter(f).map_values(g) =~= seq![]);
    } else {
        lemma_scan_keeps_symbols(bytes.drop_last());
        assert(bytes.drop_last().push(bytes.last()) =~= bytes);
        bytes.drop_last().lemma_filter_push(bytes.last(), f);
        assert(bytes.filter(f).map_values(g) =~= scan(bytes));
    }
}

} // verus!
