//! The parser that turns tokens into a tree of commands.
//!
//! The grammar:
//! ```plaintext
//! program  -> command*;
//! command  -> operator | loop;
//! operator -> "+" | "-" | "<" | ">" | "," | ".";
//! loop     -> "[" program "]";
//! ```

use crate::lexer::{kinds_of, lemma_scanned_shape, scanned_from, Position, Token, TokenKind};
use vstd::prelude::*;
use vstd::string::StringExecFns;

verus! {

/// A command that is no loop.
#[derive(Debug, Clone, Copy, PartialEq, Eq, Structural)]
pub enum Operator {
    Increment(usize),
    Decrement(usize),
    Right(usize),
    Left(usize),
    PutChar,
    ReadChar,
}

/// A list of commands, run one after the other.
#[derive(Debug, PartialEq, Eq)]
pub struct Program {
    pub commands: Vec<Command>,
}

/// A program that runs again and again while the current cell is not zero.
#[derive(Debug, PartialEq, Eq)]
pub struct Iteration {
    pub program: Program,
}

/// One node of the tree: an operator or a loop.
#[derive(Debug, PartialEq, Eq)]
pub enum Command {
    Operator(Operator),
    Iteration(Iteration),
}

/// A node of the tree as a mathematical value.
pub enum Node {
    Operator(Operator),
    Loop(Seq<Node>),
}

/// The node that a command stands for.
pub open spec fn node_of(command: Command) -> Node
    decreases command,
{
    match command {
        Command::Operator(operator) => Node::Operator(operator),
        Command::Iteration(iteration) => Node::Loop(nodes_of(iteration.program.commands@)),
    }
}

/// The nodes that a list of commands stands for.
pub open spec fn nodes_of(commands: Seq<Command>) -> Seq<Node>
    decreases commands,
{
    Seq::new(
        commands.len(),
        |i: int|
            if 0 <= i < commands.len() {
                node_of(commands[i])
            } else {
                Node::Loop(Seq::empty())
            },
    )
}

impl View for Command {
    type V = Node;

    open spec fn view(&self) -> Node {
        node_of(*self)
    }
}

impl View for Program {
    type V = Seq<Node>;

    open spec fn view(&self) -> Seq<Node> {
        nodes_of(self.commands@)
    }
}

impl View for Iteration {
    type V = Seq<Node>;

    open spec fn view(&self) -> Seq<Node> {
        self.program@
    }
}

/// A place in the tokens with what is wrong there.
pub type ParseError = (Position, String);

/// The operator that a token kind stands for, if it stands for one.
pub open spec fn operator_of(kind: TokenKind) -> Option<Operator> {
    match kind {
        TokenKind::Increment(count) => Some(Operator::Increment(count)),
        TokenKind::Decrement(count) => Some(Operator::Decrement(count)),
        TokenKind::Right(count) => Some(Operator::Right(count)),
        TokenKind::Left(count) => Some(Operator::Left(count)),
        TokenKind::PutChar => Some(Operator::PutChar),
        TokenKind::ReadChar => Some(Operator::ReadChar),
        _ => None,
    }
}

/// What parsing a program from some token on gives: the nodes, the token
/// at which the program ended, and the places at which a loop was found
/// without its end.
pub struct Parsed {
    pub nodes: Seq<Node>,
    pub next: int,
    pub unclosed: Seq<Position>,
}

/// The program that starts at token `i`. It takes operators and whole loops
/// as long as there are any. A loop is its opening token, a program, and the
/// closing token; where the closing token is missing, the place of the token
/// found instead is recorded and the program ends there.
pub open spec fn parsed_program(tokens: Seq<Token>, i: int) -> Parsed
    decreases tokens.len() - i,
{
    if 0 <= i < tokens.len() {
        match operator_of(tokens[i].kind) {
            Some(operator) => {
                let rest = parsed_program(tokens, i + 1);
                Parsed {
                    nodes: seq![Node::Operator(operator)] + rest.nodes,
                    next: rest.next,
                    unclosed: rest.unclosed,
                }
            },
            None => if tokens[i].kind is LoopStart {
                let body = parsed_program(tokens, i + 1);
                if i < body.next < tokens.len() && tokens[body.next].kind is LoopEnd {
                    let rest = parsed_program(tokens, body.next + 1);
                    Parsed {
                        nodes: seq![Node::Loop(body.nodes)] + rest.nodes,
                        next: rest.next,
                        unclosed: body.unclosed + rest.unclosed,
                    }
                } else {
                    Parsed {
                        nodes: Seq::empty(),
                        next: body.next,
                        unclosed: body.unclosed.push(tokens[body.next].position),
                    }
                }
            } else {
                Parsed { nodes: Seq::empty(), next: i, unclosed: Seq::empty() }
            },
        }
    } else {
        Parsed { nodes: Seq::empty(), next: i, unclosed: Seq::empty() }
    }
}

/// Whether the end of the program stands at token `i` or after it.
pub open spec fn ends_from(tokens: Seq<Token>, i: int) -> bool {
    exists|end: int| i <= end < tokens.len() && (#[trigger] tokens[end]).kind is EOF
}

/// Where the end of the program stands at a token or after it, and the
/// token is another one, the end stands after the token.
pub proof fn lemma_ends_after(tokens: Seq<Token>, i: int)
    requires
        0 <= i,
        ends_from(tokens, i),
        !(tokens[i].kind is EOF),
    ensures
        i + 1 < tokens.len(),
        ends_from(tokens, i + 1),
{
    let end = choose|end: int| i <= end < tokens.len() && (#[trigger] tokens[end]).kind is EOF;
    assert(i + 1 <= end < tokens.len() && tokens[end].kind is EOF);
}

/// The tokens of any text hold the end of the program, so they can be
/// parsed.
pub proof fn lemma_scanned_ends(text: Seq<char>)
    ensures
        ends_from(scanned_from(text, 0), 0),
{
    lemma_scanned_shape(text, 0);
    let tokens = scanned_from(text, 0);
    assert(tokens[tokens.len() - 1].kind is EOF);
}

/// A program ends at or after the token it starts at, and inside the tokens.
pub proof fn lemma_parsed_program_next(tokens: Seq<Token>, i: int)
    requires
        0 <= i,
        ends_from(tokens, i),
    ensures
        ends_from(tokens, parsed_program(tokens, i).next),
        i <= parsed_program(tokens, i).next < tokens.len(),
        operator_of(tokens[parsed_program(tokens, i).next].kind) is None,
        !(tokens[parsed_program(tokens, i).next].kind is LoopStart) || parsed_program(
            tokens,
            i,
        ).unclosed.len() > 0,
    decreases tokens.len() - i,
{
    if operator_of(tokens[i].kind) is Some {
        lemma_ends_after(tokens, i);
        lemma_parsed_program_next(tokens, i + 1);
    } else if tokens[i].kind is LoopStart {
        lemma_ends_after(tokens, i);
        lemma_parsed_program_next(tokens, i + 1);
        let body = parsed_program(tokens, i + 1);
        if tokens[body.next].kind is LoopEnd {
            lemma_ends_after(tokens, body.next);
            lemma_parsed_program_next(tokens, body.next + 1);
        }
    }
}

/// The kind of the token that stands for an operator.
pub open spec fn kind_of_operator(operator: Operator) -> TokenKind {
    match operator {
        Operator::Increment(count) => TokenKind::Increment(count),
        Operator::Decrement(count) => TokenKind::Decrement(count),
        Operator::Right(count) => TokenKind::Right(count),
        Operator::Left(count) => TokenKind::Left(count),
        Operator::PutChar => TokenKind::PutChar,
        Operator::ReadChar => TokenKind::ReadChar,
    }
}

/// The kinds of the tokens that a node is written with: the one of an
/// operator, or those of the body of a loop between the two that open and
/// close it.
pub open spec fn spelled_node(node: Node) -> Seq<TokenKind>
    decreases node, 0int,
{
    match node {
        Node::Operator(operator) => seq![kind_of_operator(operator)],
        Node::Loop(body) => seq![TokenKind::LoopStart] + spelled_from(body, 0) + seq![
            TokenKind::LoopEnd,
        ],
    }
}

/// The kinds of the tokens that the nodes from node `i` on are written with.
pub open spec fn spelled_from(nodes: Seq<Node>, i: int) -> Seq<TokenKind>
    decreases nodes, nodes.len() - i,
{
    if 0 <= i < nodes.len() {
        spelled_node(nodes[i]) + spelled_from(nodes, i + 1)
    } else {
        Seq::empty()
    }
}

/// The kinds of the tokens that a program is written with.
pub open spec fn spelled(nodes: Seq<Node>) -> Seq<TokenKind> {
    spelled_from(nodes, 0)
}

/// What comes after the first node is written as it is without that node.
proof fn lemma_spelled_after_first(first: Node, rest: Seq<Node>, i: int)
    requires
        0 <= i,
    ensures
        spelled_from(seq![first] + rest, i + 1) == spelled_from(rest, i),
    decreases rest.len() - i,
{
    let all = seq![first] + rest;
    if i < rest.len() {
        assert(all[i + 1] == rest[i]);
        lemma_spelled_after_first(first, rest, i + 1);
    }
}

/// A program whose loops are all closed is written with exactly the tokens
/// from the one it starts at up to the one it ends at, and it ends at the
/// end of a loop or of the program.
pub proof fn lemma_parsed_program_spells(tokens: Seq<Token>, i: int)
    requires
        0 <= i,
        ends_from(tokens, i),
    ensures
        ({
            let parsed = parsed_program(tokens, i);
            parsed.unclosed.len() == 0 ==> {
                &&& spelled(parsed.nodes) == kinds_of(tokens).subrange(i, parsed.next)
                &&& tokens[parsed.next].kind is LoopEnd || tokens[parsed.next].kind is EOF
                &&& forall|x: int| i <= x < parsed.next ==> !((#[trigger] tokens[x]).kind is EOF)
            }
        }),
    decreases tokens.len() - i,
{
    let parsed = parsed_program(tokens, i);
    let kinds = kinds_of(tokens);
    lemma_parsed_program_next(tokens, i);
    match operator_of(tokens[i].kind) {
        Some(operator) => {
            let rest = parsed_program(tokens, i + 1);
            lemma_ends_after(tokens, i);
            lemma_parsed_program_next(tokens, i + 1);
            lemma_parsed_program_spells(tokens, i + 1);
            if parsed.unclosed.len() == 0 {
                lemma_spelled_after_first(Node::Operator(operator), rest.nodes, 0);
                assert(parsed.nodes == seq![Node::Operator(operator)] + rest.nodes);
                assert(parsed.nodes[0] == Node::Operator(operator));
                assert(kind_of_operator(operator) == tokens[i].kind);
                assert(spelled_from(parsed.nodes, 0) == spelled_node(parsed.nodes[0])
                    + spelled_from(parsed.nodes, 1));
                assert(spelled(parsed.nodes) =~= seq![tokens[i].kind] + spelled(rest.nodes));
                assert(kinds.subrange(i, parsed.next) =~= seq![tokens[i].kind] + kinds.subrange(
                    i + 1,
                    rest.next,
                ));
            }
        },
        None => {
            if tokens[i].kind is LoopStart {
                let body = parsed_program(tokens, i + 1);
                lemma_ends_after(tokens, i);
                lemma_parsed_program_next(tokens, i + 1);
                lemma_parsed_program_spells(tokens, i + 1);
                if tokens[body.next].kind is LoopEnd {
                    let rest = parsed_program(tokens, body.next + 1);
                    lemma_ends_after(tokens, body.next);
                    lemma_parsed_program_next(tokens, body.next + 1);
                    lemma_parsed_program_spells(tokens, body.next + 1);
                    if parsed.unclosed.len() == 0 {
                        assert(body.unclosed.len() == 0 && rest.unclosed.len() == 0);
                        lemma_spelled_after_first(Node::Loop(body.nodes), rest.nodes, 0);
                        assert(parsed.nodes == seq![Node::Loop(body.nodes)] + rest.nodes);
                        assert(parsed.nodes[0] == Node::Loop(body.nodes));
                        assert(spelled_from(parsed.nodes, 0) == spelled_node(parsed.nodes[0])
                            + spelled_from(parsed.nodes, 1));
                        assert(spelled(parsed.nodes) =~= seq![TokenKind::LoopStart] + spelled(
                            body.nodes,
                        ) + seq![TokenKind::LoopEnd] + spelled(rest.nodes));
                        assert(kinds.subrange(i, parsed.next) =~= seq![tokens[i].kind]
                            + kinds.subrange(i + 1, body.next) + seq![tokens[body.next].kind]
                            + kinds.subrange(body.next + 1, rest.next));
                    }
                }
            } else {
                assert(kinds.subrange(i, parsed.next) =~= Seq::empty());
            }
        },
    }
}

/// Where parsing succeeds, the program is written with exactly the tokens
/// from the cursor up to the first end of the program.
pub proof fn lemma_parse_spells(tokens: Seq<Token>, start: int)
    requires
        0 <= start,
        ends_from(tokens, start),
    ensures
        parse_outcome(tokens, start, Seq::empty()) matches Ok(nodes) ==> {
            let end = parsed_program(tokens, start).next;
            &&& start <= end < tokens.len()
            &&& tokens[end].kind is EOF
            &&& forall|x: int| start <= x < end ==> !((#[trigger] tokens[x]).kind is EOF)
            &&& spelled(nodes) == kinds_of(tokens).subrange(start, end)
        },
{
    let top = parsed_program(tokens, start);
    lemma_parsed_program_next(tokens, start);
    lemma_parsed_program_spells(tokens, start);
    if parse_outcome(tokens, start, Seq::empty()) is Ok {
        assert(expected_ends(top.unclosed).len() == 0);
        assert(unexpected_from(tokens, top.next).len() == 0);
    }
}

/// Where a program ends that starts at token `j` and has `open` loops of
/// its own open there: at the end of the program, or at the first loop end
/// that closes none of its loops.
pub open spec fn program_end(tokens: Seq<Token>, j: int, open: nat) -> int
    decreases tokens.len() - j,
{
    if 0 <= j < tokens.len() {
        if tokens[j].kind is EOF {
            j
        } else if tokens[j].kind is LoopEnd {
            if open == 0 {
                j
            } else {
                program_end(tokens, j + 1, (open - 1) as nat)
            }
        } else if tokens[j].kind is LoopStart {
            program_end(tokens, j + 1, open + 1)
        } else {
            program_end(tokens, j + 1, open)
        }
    } else {
        j
    }
}

/// How many of its own loops are open where a program ends that starts at
/// token `j` with `open` of them open.
pub open spec fn open_at_end(tokens: Seq<Token>, j: int, open: nat) -> nat
    decreases tokens.len() - j,
{
    if 0 <= j < tokens.len() {
        if tokens[j].kind is EOF {
            open
        } else if tokens[j].kind is LoopEnd {
            if open == 0 {
                0
            } else {
                open_at_end(tokens, j + 1, (open - 1) as nat)
            }
        } else if tokens[j].kind is LoopStart {
            open_at_end(tokens, j + 1, open + 1)
        } else {
            open_at_end(tokens, j + 1, open)
        }
    } else {
        open
    }
}

/// A program with one more loop open at its start ends after the loop end
/// at which it would have ended, where the program after that loop end
/// ends; or it ends at the same end of the program with one more loop open.
pub proof fn lemma_end_one_deeper(tokens: Seq<Token>, j: int, open: nat)
    requires
        0 <= j,
        ends_from(tokens, j),
    ensures
        ({
            let end = program_end(tokens, j, open);
            &&& j <= end < tokens.len()
            &&& tokens[end].kind is LoopEnd || tokens[end].kind is EOF
            &&& tokens[end].kind is LoopEnd ==> {
                &&& open_at_end(tokens, j, open) == 0
                &&& program_end(tokens, j, open + 1) == program_end(tokens, end + 1, 0)
                &&& open_at_end(tokens, j, open + 1) == open_at_end(tokens, end + 1, 0)
            }
            &&& tokens[end].kind is EOF ==> {
                &&& program_end(tokens, j, open + 1) == end
                &&& open_at_end(tokens, j, open + 1) == open_at_end(tokens, j, open) + 1
            }
        }),
    decreases tokens.len() - j,
{
    if tokens[j].kind is EOF {
    } else {
        lemma_ends_after(tokens, j);
        if tokens[j].kind is LoopEnd {
            if open > 0 {
                lemma_end_one_deeper(tokens, j + 1, (open - 1) as nat);
            }
        } else if tokens[j].kind is LoopStart {
            lemma_end_one_deeper(tokens, j + 1, open + 1);
        } else {
            lemma_end_one_deeper(tokens, j + 1, open);
        }
    }
}

/// A program ends at the end of the program or at the first loop end that
/// closes none of its loops, and the loops found without their end are
/// those still open there, each recorded at that place.
pub proof fn lemma_parsed_program_ends(tokens: Seq<Token>, i: int)
    requires
        0 <= i,
        ends_from(tokens, i),
    ensures
        parsed_program(tokens, i).next == program_end(tokens, i, 0),
        parsed_program(tokens, i).unclosed == Seq::new(
            open_at_end(tokens, i, 0),
            |k: int| tokens[program_end(tokens, i, 0)].position,
        ),
    decreases tokens.len() - i,
{
    let parsed = parsed_program(tokens, i);
    let end = program_end(tokens, i, 0);
    let place = tokens[end].position;
    let places = Seq::new(open_at_end(tokens, i, 0), |k: int| place);
    lemma_parsed_program_next(tokens, i);
    if operator_of(tokens[i].kind) is Some {
        lemma_ends_after(tokens, i);
        lemma_parsed_program_ends(tokens, i + 1);
        assert(parsed.unclosed =~= places);
    } else if tokens[i].kind is LoopStart {
        lemma_ends_after(tokens, i);
        lemma_parsed_program_next(tokens, i + 1);
        lemma_parsed_program_ends(tokens, i + 1);
        lemma_end_one_deeper(tokens, i + 1, 0);
        let body = parsed_program(tokens, i + 1);
        if tokens[body.next].kind is LoopEnd {
            lemma_ends_after(tokens, body.next);
            lemma_parsed_program_ends(tokens, body.next + 1);
            let rest = parsed_program(tokens, body.next + 1);
            assert(body.unclosed.len() == 0);
            assert(parsed.unclosed =~= rest.unclosed);
            assert(parsed.unclosed =~= places);
        } else {
            assert(parsed.unclosed =~= places);
        }
    } else {
        assert(parsed.unclosed =~= places);
    }
}

/// Parsing from a token on succeeds exactly where the program that starts
/// there ends at the end of the program with none of its loops open.
pub proof fn lemma_parse_succeeds(tokens: Seq<Token>, start: int)
    requires
        0 <= start,
        ends_from(tokens, start),
    ensures
        parse_outcome(tokens, start, Seq::empty()) is Ok <==> tokens[program_end(
            tokens,
            start,
            0,
        )].kind is EOF && open_at_end(tokens, start, 0) == 0,
{
    let top = parsed_program(tokens, start);
    lemma_parsed_program_next(tokens, start);
    lemma_parsed_program_ends(tokens, start);
    assert(expected_ends(top.unclosed).len() == top.unclosed.len());
    if tokens[top.next].kind is EOF {
        assert(unexpected_from(tokens, top.next).len() == 0);
    } else {
        assert(unexpected_from(tokens, top.next).len() > 0);
    }
}

/// The complaints about loops without their end.
pub open spec fn expected_ends(places: Seq<Position>) -> Seq<(Position, Seq<char>)> {
    places.map_values(|place: Position| (place, "Expected ']'"@))
}

/// The complaints about the tokens from token `i` up to the end of the
/// program: one for each.
pub open spec fn unexpected_from(tokens: Seq<Token>, i: int) -> Seq<(Position, Seq<char>)>
    decreases tokens.len() - i,
{
    if 0 <= i < tokens.len() && !(tokens[i].kind is EOF) {
        seq![(tokens[i].position, "Unexpected token "@ + tokens[i].kind.text())] + unexpected_from(
            tokens,
            i + 1,
        )
    } else {
        Seq::empty()
    }
}

/// The places and messages of a list of errors.
pub open spec fn complaints(errors: Seq<(Position, String)>) -> Seq<(Position, Seq<char>)> {
    errors.map_values(|error: (Position, String)| (error.0, error.1@))
}

/// What parsing gives from token `start` on, with the complaints made so
/// far: the program, or all the complaints where there are any.
pub open spec fn parse_outcome(
    tokens: Seq<Token>,
    start: int,
    before: Seq<(Position, Seq<char>)>,
) -> Result<Seq<Node>, Seq<(Position, Seq<char>)>> {
    let top = parsed_program(tokens, start);
    let all = before + expected_ends(top.unclosed) + unexpected_from(tokens, top.next);
    if all.len() == 0 {
        Ok(top.nodes)
    } else {
        Err(all)
    }
}

/// Whether the tokens hold the token for the end of the program.
pub fn holds_end(tokens: &Vec<Token>) -> (found: bool)
    ensures
        found == ends_from(tokens@, 0),
{
    let mut i: usize = 0;
    while i < tokens.len()
        invariant
            i <= tokens.len(),
            forall|x: int| 0 <= x < i ==> !((#[trigger] tokens@[x]).kind is EOF),
        decreases tokens.len() - i,
    {
        if matches!(tokens[i].kind(), TokenKind::EOF) {
            return true;
        }
        i += 1;
    }
    false
}

/// A cursor over tokens that hold the token for the end of the program.
#[derive(Debug)]
pub struct Parser {
    pub current: usize,
    pub tokens: Vec<Token>,
    pub errors: Vec<ParseError>,
}

impl Parser {
    /// The end of the program stands at the cursor or after it.
    pub open spec fn wf(&self) -> bool {
        ends_from(self.tokens@, self.current as int)
    }

    /// The tokens must hold the token for the end of the program: the cursor
    /// stops nowhere else.
    pub fn new(tokens: Vec<Token>) -> (parser: Self)
        requires
            ends_from(tokens@, 0),
        ensures
            parser.wf(),
            parser.current == 0,
            parser.tokens@ == tokens@,
            parser.errors@.len() == 0,
    {
        Self { current: 0, tokens, errors: Vec::new() }
    }

    /// The token at the cursor.
    pub fn peek(&self) -> (token: &Token)
        requires
            self.wf(),
        ensures
            *token == self.tokens@[self.current as int],
    {
        &self.tokens[self.current]
    }

    /// Whether the cursor stands at the end of the program.
    pub fn at_end(&self) -> (at_end: bool)
        requires
            self.wf(),
        ensures
            at_end == (self.tokens@[self.current as int].kind is EOF),
    {
        matches!(self.peek().kind(), TokenKind::EOF)
    }

    /// The token before the cursor.
    pub fn previous(&self) -> (token: &Token)
        requires
            self.wf(),
            self.current > 0,
        ensures
            *token == self.tokens@[self.current - 1],
    {
        &self.tokens[self.current - 1]
    }

    /// Moves past the current token unless it is the end of the program, and
    /// returns the token before the cursor.
    pub fn advance(&mut self) -> (token: Token)
        requires
            old(self).wf(),
            old(self).current > 0 || !(old(self).tokens@[0].kind is EOF),
        ensures
            final(self).wf(),
            final(self).tokens == old(self).tokens,
            final(self).errors == old(self).errors,
            final(self).current == if (old(self).tokens@[old(self).current as int].kind is EOF) {
                old(self).current as int
            } else {
                old(self).current + 1
            },
            token == final(self).tokens@[final(self).current - 1],
    {
        if !self.at_end() {
            proof {
                lemma_ends_after(self.tokens@, self.current as int);
            }
            assert(self.current < self.tokens.len());
            self.current += 1;
        }
        *self.previous()
    }

    /// Records a complaint at the place of the current token.
    pub fn push_error(&mut self, message: String)
        requires
            old(self).wf(),
        ensures
            final(self).wf(),
            final(self).tokens == old(self).tokens,
            final(self).current == old(self).current,
            complaints(final(self).errors@) == complaints(old(self).errors@).push(
                (old(self).tokens@[old(self).current as int].position, message@),
            ),
    {
        let position = *self.peek().position();
        let ghost before = self.errors@;
        self.errors.push((position, message));
        assert(complaints(self.errors@) =~= complaints(before).push((position, message@)));
    }

    /// Takes operators and whole loops as long as there are any.
    pub fn program(&mut self) -> (program: Program)
        requires
            old(self).wf(),
        ensures
            final(self).wf(),
            final(self).tokens == old(self).tokens,
            program@ == parsed_program(old(self).tokens@, old(self).current as int).nodes,
            final(self).current == parsed_program(old(self).tokens@, old(self).current as int).next,
            complaints(final(self).errors@) == complaints(old(self).errors@) + expected_ends(
                parsed_program(old(self).tokens@, old(self).current as int).unclosed,
            ),
        decreases old(self).tokens@.len() - old(self).current, 1int,
    {
        let mut commands: Vec<Command> = Vec::new();
        let ghost tokens = self.tokens@;
        let ghost start = self.current as int;
        let ghost before = complaints(self.errors@);
        let ghost whole = parsed_program(tokens, start);
        let ghost mut done: Seq<Position> = Seq::empty();
        assert(nodes_of(commands@) =~= Seq::empty());
        assert(expected_ends(done) =~= Seq::empty());
        loop
            invariant_except_break
                nodes_of(commands@) + parsed_program(tokens, self.current as int).nodes
                    == whole.nodes,
                parsed_program(tokens, self.current as int).next == whole.next,
                complaints(self.errors@) == before + expected_ends(done),
                done + parsed_program(tokens, self.current as int).unclosed == whole.unclosed,
            invariant
                self.wf(),
                self.tokens@ == tokens,
                self.tokens == old(self).tokens,
                start <= self.current,
                whole == parsed_program(tokens, start),
                start == old(self).current,
                tokens == old(self).tokens@,
            ensures
                nodes_of(commands@) == whole.nodes,
                self.current == whole.next,
                complaints(self.errors@) == before + expected_ends(whole.unclosed),
            decreases tokens.len() - self.current,
        {
            let ghost here = self.current as int;
            let ghost so_far = commands@;
            proof {
                lemma_parsed_program_next(tokens, here);
            }
            if let Some(operator) = self.operator() {
                commands.push(operator);
                proof {
                    assert(nodes_of(commands@) =~= nodes_of(so_far).push(node_of(operator)));
                    assert(nodes_of(commands@) + parsed_program(tokens, here + 1).nodes
                        =~= whole.nodes);
                    assert(done + parsed_program(tokens, here + 1).unclosed == whole.unclosed);
                }
                continue ;
            }
            if let Some(iteration) = self.iteration() {
                commands.push(iteration);
                proof {
                    let body = parsed_program(tokens, here + 1);
                    lemma_parsed_program_next(tokens, here + 1);
                    let rest = parsed_program(tokens, body.next + 1);
                    let more = done + body.unclosed;
                    assert(nodes_of(commands@) =~= nodes_of(so_far).push(node_of(iteration)));
                    assert(nodes_of(commands@) + rest.nodes =~= whole.nodes);
                    assert(expected_ends(more) =~= expected_ends(done) + expected_ends(
                        body.unclosed,
                    ));
                    assert(complaints(self.errors@) =~= before + expected_ends(more));
                    assert(more + rest.unclosed =~= whole.unclosed);
                    done = more;
                }
                continue ;
            }
            proof {
                if tokens[here].kind is LoopStart {
                    let body = parsed_program(tokens, here + 1);
                    lemma_parsed_program_next(tokens, here + 1);
                    let last = body.unclosed.push(tokens[body.next].position);
                    assert(expected_ends(done + last) =~= expected_ends(done) + expected_ends(
                        last,
                    ));
                    assert(complaints(self.errors@) =~= before + expected_ends(done + last));
                } else {
                    assert(done + Seq::<Position>::empty() =~= done);
                }
                assert(nodes_of(commands@) + Seq::<Node>::empty() =~= nodes_of(commands@));
            }
            break ;
        }
        Program { commands }
    }

    /// Takes the current token where it is an operator.
    pub fn operator(&mut self) -> (command: Option<Command>)
        requires
            old(self).wf(),
        ensures
            final(self).wf(),
            final(self).tokens == old(self).tokens,
            final(self).errors == old(self).errors,
            match operator_of(old(self).tokens@[old(self).current as int].kind) {
                Some(operator) => command matches Some(command) && command@ == Node::Operator(
                    operator,
                ) && final(self).current == old(self).current + 1,
                None => command is None && final(self).current == old(self).current,
            },
    {
        let operator = match self.peek().kind() {
            TokenKind::Increment(v) => Some(Operator::Increment(*v)),
            TokenKind::Decrement(v) => Some(Operator::Decrement(*v)),
            TokenKind::Right(v) => Some(Operator::Right(*v)),
            TokenKind::Left(v) => Some(Operator::Left(*v)),
            TokenKind::PutChar => Some(Operator::PutChar),
            TokenKind::ReadChar => Some(Operator::ReadChar),
            _ => None,
        };
        if let Some(operator) = operator {
            self.advance();
            Some(Command::Operator(operator))
        } else {
            None
        }
    }

    /// Takes a whole loop where the current token opens one. Where the loop
    /// is not closed, a complaint is recorded at the token found instead.
    pub fn iteration(&mut self) -> (command: Option<Command>)
        requires
            old(self).wf(),
        ensures
            final(self).wf(),
            final(self).tokens == old(self).tokens,
            ({
                let tokens = old(self).tokens@;
                let here = old(self).current as int;
                let body = parsed_program(tokens, here + 1);
                if !(tokens[here].kind is LoopStart) {
                    &&& command is None
                    &&& final(self).current == here
                    &&& final(self).errors == old(self).errors
                } else if tokens[body.next].kind is LoopEnd {
                    &&& command matches Some(command)
                    &&& command@ == Node::Loop(body.nodes)
                    &&& final(self).current == body.next + 1
                    &&& complaints(final(self).errors@) == complaints(old(self).errors@)
                        + expected_ends(body.unclosed)
                } else {
                    &&& command is None
                    &&& final(self).current == body.next
                    &&& complaints(final(self).errors@) == complaints(old(self).errors@)
                        + expected_ends(body.unclosed.push(tokens[body.next].position))
                }
            }),
        decreases old(self).tokens@.len() - old(self).current, 0int,
    {
        if !matches!(self.peek().kind(), TokenKind::LoopStart) {
            return None;
        }
        let ghost tokens = self.tokens@;
        let ghost here = self.current as int;
        let ghost before = complaints(self.errors@);
        self.advance();
        let program = self.program();
        let ghost body = parsed_program(tokens, here + 1);
        if !matches!(self.peek().kind(), TokenKind::LoopEnd) {
            self.push_error(String::from_str("Expected ']'"));
            proof {
                let place = tokens[body.next].position;
                assert(expected_ends(body.unclosed.push(place)) =~= expected_ends(
                    body.unclosed,
                ).push((place, "Expected ']'"@)));
                assert(complaints(self.errors@) =~= before + expected_ends(
                    body.unclosed.push(place),
                ));
            }
            return None;
        }
        self.advance();
        Some(Command::Iteration(Iteration { program }))
    }

    /// Parses the tokens from the cursor on. Every token left over after the
    /// program is complained about.
    pub fn parse(self) -> (outcome: Result<Program, Vec<ParseError>>)
        requires
            self.wf(),
        ensures
            parse_outcome(self.tokens@, self.current as int, complaints(self.errors@))
                == match outcome {
                Ok(program) => Ok::<Seq<Node>, Seq<(Position, Seq<char>)>>(program@),
                Err(errors) => Err(complaints(errors@)),
            },
    {
        let mut parser = self;
        let ghost tokens = parser.tokens@;
        let ghost top = parsed_program(tokens, parser.current as int);
        let ghost before = complaints(parser.errors@) + expected_ends(top.unclosed);
        let program = parser.program();
        while !parser.at_end()
            invariant
                parser.wf(),
                parser.tokens@ == tokens,
                complaints(parser.errors@) + unexpected_from(tokens, parser.current as int) == before
                    + unexpected_from(tokens, top.next),
            decreases tokens.len() - parser.current,
        {
            let ghost so_far = complaints(parser.errors@);
            let ghost here = parser.current as int;
            let message = String::from_str("Unexpected token ").concat(
                parser.peek().kind().to_string().as_str(),
            );
            parser.push_error(message);
            parser.advance();
            assert(so_far.push((tokens[here].position, message@)) + unexpected_from(
                tokens,
                here + 1,
            ) =~= so_far + unexpected_from(tokens, here));
        }
        assert(complaints(parser.errors@) =~= before + unexpected_from(tokens, top.next)) by {
            assert(unexpected_from(tokens, parser.current as int) =~= Seq::empty());
        }
        if parser.errors.len() == 0 {
            Ok(program)
        } else {
            Err(parser.errors)
        }
    }
}

} // verus!
