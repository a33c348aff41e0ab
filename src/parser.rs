use vstd::prelude::*;
use crate::token::Token;

verus! {

/// A resolved unit of execution: a primitive action, or a loop owning its body.
#[derive(Debug, PartialEq, Eq)]
pub enum Command {
    Do(Token),
    Loop(Vec<Command>),
}

/// The mathematical model of a command: a loop body is a sequence.
pub enum Node {
    Do(Token),
    Loop(Seq<Node>),
}

impl View for Command {
    type V = Node;

    open spec fn view(&self) -> Node {
        command_node(*self)
    }
}

pub open spec fn command_node(c: Command) -> Node
    decreases c,
{
    match c {
        Command::Do(t) => Node::Do(t),
        Command::Loop(body) => Node::Loop(nodes(body@)),
    }
}

/// The models of a sequence of commands.
pub open spec fn nodes(cs: Seq<Command>) -> Seq<Node>
    decreases cs,
{
    if cs.len() == 0 {
        seq![]
    } else {
        nodes(cs.drop_last()).push(command_node(cs.last()))
    }
}

/// The commands parsed from `tokens` starting at index `i`, and the index at
/// which that level stopped: the index of the `]` that closed it, or past the
/// end when the tokens ran out.
pub open spec fn parse_from(tokens: Seq<Token>, i: int) -> (Seq<Node>, int)
    decreases tokens.len() - i,
{
    if i < 0 || i >= tokens.len() {
        (seq![], i)
    } else {
        match tokens[i] {
            Token::LoopEnd => (seq![], i),
            Token::LoopStart => {
                let (body, j) = parse_from(tokens, i + 1);
                let (rest, k) = if i < j < tokens.len() {
                    parse_from(tokens, j + 1)
                } else {
                    (seq![], j + 1)
                };
                (seq![Node::Loop(body)] + rest, k)
            },
            t => {
                let (rest, k) = parse_from(tokens, i + 1);
                (seq![Node::Do(t)] + rest, k)
            },
        }
    }
}

/// Where a level stops: never before its start, and not farther past the end
/// than one step for each token it read.
pub proof fn lemma_parse_stop(tokens: Seq<Token>, i: int)
    requires
        0 <= i <= tokens.len(),
    ensures
        i <= parse_from(tokens, i).1 <= 2 * tokens.len() - i,
        parse_from(tokens, i).1 < tokens.len() ==> tokens[parse_from(tokens, i).1] == Token::LoopEnd,
    decreases tokens.len() - i,
{
    if i < tokens.len() {
        match tokens[i] {
            Token::LoopEnd => {},
            Token::LoopStart => {
                lemma_parse_stop(tokens, i + 1);
                let j = parse_from(tokens, i + 1).1;
                if j + 1 <= tokens.len() {
                    lemma_parse_stop(tokens, j + 1);
                }
            },
            _ => {
                lemma_parse_stop(tokens, i + 1);
            },
        }
    }
}

proof fn lemma_nodes_push(cs: Seq<Command>, c: Command)
    ensures
        nodes(cs.push(c)) == nodes(cs).push(c@),
{
    assert(cs.push(c).drop_last() =~= cs);
}

/// Parses `tokens` from index `start` up to the `]` that closes this level,
/// or to the end. Returns the commands and the index at which the level
/// stopped. Unmatched brackets raise no error: an unclosed `[` extends to the
/// end, and a stray `]` ends the level it stands in.
pub fn parse(start: usize, tokens: &Vec<Token>) -> (r: (Vec<Command>, usize))
    requires
        tokens@.len() <= isize::MAX,
    ensures
        nodes(r.0@) == parse_from(tokens@, start as int).0,
        r.1 == parse_from(tokens@, start as int).1,
    decreases tokens@.len() - start,
{
    let mut program: Vec<Command> = Vec::new();
    let mut index = start;
    if start <= tokens.len() {
        proof { lemma_parse_stop(tokens@, start as int); }
    }
    while index < tokens.len()
        invariant
            tokens@.len() <= isize::MAX,
            start <= index,
            start <= tokens@.len() ==> index <= 2 * tokens@.len() - start,
            start > tokens@.len() ==> index == start,
            parse_from(tokens@, start as int) == (
                nodes(program@) + parse_from(tokens@, index as int).0,
                parse_from(tokens@, index as int).1,
            ),
        decreases 2 * tokens@.len() + 1 - index,
    {
        match tokens[index] {
            Token::LoopStart => {
                proof { lemma_parse_stop(tokens@, index + 1); }
                let res = parse(index + 1, tokens);
                proof {
                    if res.1 + 1 <= tokens@.len() {
                        lemma_parse_stop(tokens@, res.1 + 1);
                    }
                }
                let c = Command::Loop(res.0);
                proof { lemma_nodes_push(program@, c); }
                program.push(c);
                index = res.1;
            },
            Token::LoopEnd => {
                return (program, index);
            },
            t => {
                proof { lemma_nodes_push(program@, Command::Do(t)); }
                program.push(Command::Do(t));
            },
        }
        index += 1;
    }
    (program, index)
}

pub open spec fn is_bracket(t: Token) -> bool {
    t == Token::LoopStart || t == Token::LoopEnd
}

/// The tokens without their brackets.
pub open spec fn strip_brackets(ts: Seq<Token>) -> Seq<Token> {
    ts.filter(|t: Token| !is_bracket(t))
}

/// The primitive tokens of a tree, read left to right through every loop.
pub open spec fn node_leaves(n: Node) -> Seq<Token>
    decreases n,
{
    match n {
        Node::Do(t) => seq![t],
        Node::Loop(body) => leaves(body),
    }
}

pub open spec fn leaves(ns: Seq<Node>) -> Seq<Token>
    decreases ns,
{
    if ns.len() == 0 {
        seq![]
    } else {
        node_leaves(ns[0]) + leaves(ns.drop_first())
    }
}

/// Opening brackets minus closing brackets.
pub open spec fn depth(ts: Seq<Token>) -> int
    decreases ts.len(),
{
    if ts.len() == 0 {
        0
    } else {
        depth(ts.drop_first()) + if ts[0] == Token::LoopStart {
            1int
        } else if ts[0] == Token::LoopEnd {
            -1int
        } else {
            0int
        }
    }
}

/// Every `[` is closed by a later `]` and every `]` closes an earlier `[`.
pub open spec fn balanced(ts: Seq<Token>) -> bool {
    &&& depth(ts) == 0
    &&& forall|p: int| 0 <= p <= ts.len() ==> #[trigger] depth(ts.take(p)) >= 0
}

proof fn lemma_depth_add(a: Seq<Token>, b: Seq<Token>)
    ensures
        depth(a + b) == depth(a) + depth(b),
    decreases a.len(),
{
    if a.len() > 0 {
        assert((a + b).drop_first() =~= a.drop_first() + b);
        lemma_depth_add(a.drop_first(), b);
    } else {
        assert(a + b =~= b);
    }
}

proof fn lemma_split(t: Seq<Token>, a: int, b: int, c: int)
    requires
        0 <= a <= b <= c <= t.len(),
    ensures
        depth(t.subrange(a, c)) == depth(t.subrange(a, b)) + depth(t.subrange(b, c)),
        strip_brackets(t.subrange(a, c)) == strip_brackets(t.subrange(a, b)) + strip_brackets(
            t.subrange(b, c),
        ),
{
    assert(t.subrange(a, c) =~= t.subrange(a, b) + t.subrange(b, c));
    lemma_depth_add(t.subrange(a, b), t.subrange(b, c));
    Seq::filter_distributes_over_add(t.subrange(a, b), t.subrange(b, c), |x: Token| !is_bracket(x));
}

proof fn lemma_single(t: Seq<Token>, a: int)
    requires
        0 <= a < t.len(),
    ensures
        depth(t.subrange(a, a + 1)) == if t[a] == Token::LoopStart {
            1int
        } else if t[a] == Token::LoopEnd {
            -1int
        } else {
            0int
        },
        strip_brackets(t.subrange(a, a + 1)) == if is_bracket(t[a]) {
            seq![]
        } else {
            seq![t[a]]
        },
{
    let s = t.subrange(a, a + 1);
    assert(s.drop_first() =~= seq![]);
    assert(depth(s.drop_first()) == 0);
    assert(s =~= seq![].push(t[a]));
    Seq::<Token>::empty().lemma_filter_push(t[a], |x: Token| !is_bracket(x));
    assert(Seq::<Token>::empty().filter(|x: Token| !is_bracket(x)) =~= seq![]) by {
        reveal(Seq::filter);
    }
}

proof fn lemma_leaves_cons(n: Node, rest: Seq<Node>)
    ensures
        leaves(seq![n] + rest) == node_leaves(n) + leaves(rest),
{
    assert((seq![n] + rest).drop_first() =~= rest);
}

/// The leaves of one parsed level are the stripped tokens it read, and a
/// level that stopped at a `]` read as many `[` as `]`.
proof fn lemma_parse_leaves(t: Seq<Token>, i: int)
    requires
        0 <= i <= t.len(),
    ensures
        ({
            let (c, k) = parse_from(t, i);
            let m = if k < t.len() { k } else { t.len() as int };
            &&& leaves(c) == strip_brackets(t.subrange(i, m))
            &&& k < t.len() ==> depth(t.subrange(i, k)) == 0
        }),
    decreases t.len() - i,
{
    lemma_parse_stop(t, i);
    if i == t.len() {
        assert(strip_brackets(t.subrange(i, i)) =~= seq![]) by {
            reveal(Seq::filter);
        }
    } else {
        match t[i] {
            Token::LoopEnd => {
                assert(strip_brackets(t.subrange(i, i)) =~= seq![]) by {
                    reveal(Seq::filter);
                }
                assert(t.subrange(i, i) =~= seq![]);
            },
            Token::LoopStart => {
                lemma_parse_stop(t, i + 1);
                lemma_parse_leaves(t, i + 1);
                let (body, j) = parse_from(t, i + 1);
                lemma_single(t, i);
                if j < t.len() {
                    lemma_parse_stop(t, j + 1);
                    lemma_parse_leaves(t, j + 1);
                    let (rest, k) = parse_from(t, j + 1);
                    let m = if k < t.len() { k } else { t.len() as int };
                    lemma_leaves_cons(Node::Loop(body), rest);
                    lemma_single(t, j);
                    lemma_split(t, i, i + 1, m);
                    lemma_split(t, i + 1, j, m);
                    lemma_split(t, j, j + 1, m);
                } else {
                    lemma_leaves_cons(Node::Loop(body), seq![]);
                    assert(leaves(seq![]) =~= seq![]);
                    lemma_split(t, i, i + 1, t.len() as int);
                    assert(seq![Node::Loop(body)] + seq![] =~= seq![Node::Loop(body)]);
                }
            },
            tok => {
                lemma_parse_leaves(t, i + 1);
                let (rest, k) = parse_from(t, i + 1);
                let m = if k < t.len() { k } else { t.len() as int };
                lemma_parse_stop(t, i + 1);
                lemma_leaves_cons(Node::Do(tok), rest);
                lemma_single(t, i);
                lemma_split(t, i, i + 1, m);
            },
        }
    }
}

/// On balanced tokens the parse reads them all, and its leaves are the
/// tokens with the brackets removed.
pub proof fn lemma_parse_flattens(t: Seq<Token>)
    requires
        balanced(t),
    ensures
        leaves(parse_from(t, 0).0) == strip_brackets(t),
        parse_from(t, 0).1 >= t.len(),
{
    lemma_parse_leaves(t, 0);
    lemma_parse_stop(t, 0);
    let k = parse_from(t, 0).1;
    if k < t.len() {
        lemma_single(t, k);
        lemma_split(t, 0, k, k + 1);
        assert(t.subrange(0, k + 1) =~= t.take(k + 1));
        assert(depth(t.take(k + 1)) >= 0);
    }
    assert(t.subrange(0, t.len() as int) =~= t);
}

/// A level that closes within `t` is parsed the same when more tokens follow.
proof fn lemma_parse_closed_stable(t: Seq<Token>, x: Token, i: int)
    requires
        0 <= i <= t.len(),
        parse_from(t, i).1 < t.len(),
    ensures
        parse_from(t.push(x), i) == parse_from(t, i),
    decreases t.len() - i,
{
    lemma_parse_stop(t, i);
    let u = t.push(x);
    assert(u[i] == t[i]);
    match t[i] {
        Token::LoopEnd => {},
        Token::LoopStart => {
            lemma_parse_stop(t, i + 1);
            lemma_parse_closed_stable(t, x, i + 1);
            let j = parse_from(t, i + 1).1;
            lemma_parse_closed_stable(t, x, j + 1);
        },
        _ => {
            lemma_parse_closed_stable(t, x, i + 1);
        },
    }
}

/// Appending a `]` to tokens on which a level runs off the end closes the
/// innermost open loop there and leaves the commands of the level unchanged.
proof fn lemma_parse_close_at_end(t: Seq<Token>, i: int)
    requires
        0 <= i <= t.len(),
        parse_from(t, i).1 >= t.len(),
    ensures
        parse_from(t.push(Token::LoopEnd), i).0 == parse_from(t, i).0,
        parse_from(t.push(Token::LoopEnd), i).1 >= t.len(),
    decreases t.len() - i,
{
    let u = t.push(Token::LoopEnd);
    lemma_parse_stop(t, i);
    if i < t.len() {
        assert(u[i] == t[i]);
        match t[i] {
            Token::LoopEnd => {},
            Token::LoopStart => {
                lemma_parse_stop(t, i + 1);
                let j = parse_from(t, i + 1).1;
                if j < t.len() {
                    lemma_parse_closed_stable(t, Token::LoopEnd, i + 1);
                    lemma_parse_close_at_end(t, j + 1);
                } else {
                    lemma_parse_close_at_end(t, i + 1);
                    let j2 = parse_from(u, i + 1).1;
                    assert(parse_from(u, j2 + 1).0 =~= Seq::<Node>::empty());
                }
            },
            _ => {
                lemma_parse_close_at_end(t, i + 1);
            },
        }
    } else {
        assert(u[i] == Token::LoopEnd);
    }
}

/// Where tokens leave a `[` open at the end (the parse stops past the end),
/// parsing them gives the same commands as parsing them with a `]` appended:
/// an unclosed loop extends to the end of the program.
pub proof fn lemma_unclosed_loop_extends_to_end(t: Seq<Token>)
    requires
        parse_from(t, 0).1 > t.len(),
    ensures
        parse_from(t.push(Token::LoopEnd), 0).0 == parse_from(t, 0).0,
{
    lemma_parse_close_at_end(t, 0);
}

} // verus!
