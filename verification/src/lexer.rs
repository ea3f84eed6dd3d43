//! The token vocabulary and the scanner that turns program text into tokens.
//!
//! Syntax of the language:
//! - `>`  : go to the right cell
//! - `<`  : go to the left cell
//! - `+`  : increment
//! - `-`  : decrement
//! - `[]` : loop
//! - `.`  : put char
//! - `,`  : read char

use crate::text::{char_text, decimal, decimal_text};
use vstd::prelude::*;
use vstd::string::StringExecFns;

verus! {

/// A zero-based place in a source: a line number and an offset in that line.
#[derive(Debug, Clone, Copy, PartialEq, Eq, Structural)]
pub struct Position(pub u32, pub u32);

impl Position {
    /// The place at a line and an offset in it.
    pub fn new(line_number: u32, offset: u32) -> (position: Self)
        ensures
            position == Position(line_number, offset),
    {
        Self(line_number, offset)
    }

    /// The line of the place.
    pub fn line_number(&self) -> (line_number: u32)
        ensures
            line_number == self.0,
    {
        self.0
    }

    /// The offset of the place in its line.
    pub fn offset(&self) -> (offset: u32)
        ensures
            offset == self.1,
    {
        self.1
    }

    /// The place as a reader counts it, from line 1 and offset 1.
    pub open spec fn text(self) -> Seq<char> {
        "line "@ + decimal((self.0 + 1) as nat) + ", offset "@ + decimal((self.1 + 1) as nat)
    }

    /// The place as a reader counts it, from line 1 and offset 1.
    pub fn to_string(&self) -> (text: String)
        ensures
            text@ == self.text(),
    {
        let line = decimal_text(self.0 as u64 + 1);
        let offset = decimal_text(self.1 as u64 + 1);
        String::from_str("line ").concat(line.as_str()).concat(", offset ").concat(offset.as_str())
    }

    /// Moves to the start of the next line.
    pub fn increment_line_number(&mut self)
        requires
            old(self).0 < u32::MAX,
        ensures
            *final(self) == Position((old(self).0 + 1) as u32, 0),
    {
        self.0 += 1;
        self.1 = 0;
    }

    /// Moves one place to the right in the current line.
    pub fn increment_offset(&mut self)
        requires
            old(self).1 < u32::MAX,
        ensures
            *final(self) == Position(old(self).0, (old(self).1 + 1) as u32),
    {
        self.1 += 1;
    }
}

/// One instruction kind. The four movement and arithmetic kinds carry how
/// many times they repeat.
#[derive(Debug, Clone, Copy, PartialEq, Eq, Structural)]
pub enum TokenKind {
    Right(usize),
    Left(usize),
    Increment(usize),
    Decrement(usize),
    LoopStart,
    LoopEnd,
    PutChar,
    ReadChar,
    EOF,
}

impl TokenKind {
    /// The symbol of the kind in the source, between double quotes.
    pub open spec fn text(self) -> Seq<char> {
        match self {
            TokenKind::Right(_) => "\">\""@,
            TokenKind::Left(_) => "\"<\""@,
            TokenKind::Increment(_) => "\"+\""@,
            TokenKind::Decrement(_) => "\"-\""@,
            TokenKind::LoopStart => "\"[\""@,
            TokenKind::LoopEnd => "\"]\""@,
            TokenKind::PutChar => "\".\""@,
            TokenKind::ReadChar => "\",\""@,
            TokenKind::EOF => "\"EOF\""@,
        }
    }

    /// The symbol of the kind in the source, between double quotes.
    pub fn to_string(&self) -> (text: String)
        ensures
            text@ == self.text(),
    {
        String::from_str(
            match self {
                TokenKind::Right(_) => "\">\"",
                TokenKind::Left(_) => "\"<\"",
                TokenKind::Increment(_) => "\"+\"",
                TokenKind::Decrement(_) => "\"-\"",
                TokenKind::LoopStart => "\"[\"",
                TokenKind::LoopEnd => "\"]\"",
                TokenKind::PutChar => "\".\"",
                TokenKind::ReadChar => "\",\"",
                TokenKind::EOF => "\"EOF\"",
            },
        )
    }

    /// Whether this kind carries a repeat count.
    pub open spec fn carries_count(self) -> bool {
        self is Right || self is Left || self is Increment || self is Decrement
    }

    /// The repeat count that this kind carries; 0 for a kind that carries none.
    pub open spec fn count(self) -> usize {
        match self {
            TokenKind::Right(count) => count,
            TokenKind::Left(count) => count,
            TokenKind::Increment(count) => count,
            TokenKind::Decrement(count) => count,
            _ => 0,
        }
    }

    /// This kind with its repeat count replaced by `count`; a kind that
    /// carries no count stays as it is.
    pub open spec fn with_count(self, count: usize) -> TokenKind {
        match self {
            TokenKind::Right(_) => TokenKind::Right(count),
            TokenKind::Left(_) => TokenKind::Left(count),
            TokenKind::Increment(_) => TokenKind::Increment(count),
            TokenKind::Decrement(_) => TokenKind::Decrement(count),
            other => other,
        }
    }
}

/// An instruction kind together with the place it was found at.
#[derive(Debug, Clone, Copy, PartialEq, Eq, Structural)]
pub struct Token {
    pub kind: TokenKind,
    pub position: Position,
}

impl Token {
    /// The token of a kind at a place.
    pub fn new(kind: TokenKind, position: Position) -> (token: Self)
        ensures
            token == (Token { kind, position }),
    {
        Self { kind, position }
    }

    /// The place of the token.
    pub fn position(&self) -> (position: &Position)
        ensures
            *position == self.position,
    {
        &self.position
    }

    /// The kind of the token.
    pub fn kind(&self) -> (kind: &TokenKind)
        ensures
            *kind == self.kind,
    {
        &self.kind
    }
}

/// The kinds of a list of tokens.
pub open spec fn kinds_of(tokens: Seq<Token>) -> Seq<TokenKind> {
    tokens.map_values(|token: Token| token.kind)
}

/// A place in the source with what is wrong there.
pub type LexError = (Position, String);

/// Whether a character is one of the four that repeat: `+`, `-`, `<`, `>`.
pub open spec fn repeats(character: char) -> bool {
    character == '+' || character == '-' || character == '<' || character == '>'
}

/// The kind for `count` copies of a character that repeats.
pub open spec fn repeated(character: char, count: usize) -> TokenKind {
    if character == '+' {
        TokenKind::Increment(count)
    } else if character == '-' {
        TokenKind::Decrement(count)
    } else if character == '>' {
        TokenKind::Right(count)
    } else {
        TokenKind::Left(count)
    }
}

/// The kind for a character that stands for a token by itself.
pub open spec fn single(character: char) -> Option<TokenKind> {
    if character == '.' {
        Some(TokenKind::PutChar)
    } else if character == ',' {
        Some(TokenKind::ReadChar)
    } else if character == '[' {
        Some(TokenKind::LoopStart)
    } else if character == ']' {
        Some(TokenKind::LoopEnd)
    } else {
        None
    }
}

/// Whether a character may stand in a program.
pub open spec fn recognized(character: char) -> bool {
    repeats(character) || single(character) is Some || character == '\n' || character == ' '
        || character == '\t'
}

/// How many line feeds stand among the first `i` characters.
pub open spec fn line_after(text: Seq<char>, i: int) -> int
    decreases i,
{
    if i <= 0 {
        0
    } else if text[i - 1] == '\n' {
        line_after(text, i - 1) + 1
    } else {
        line_after(text, i - 1)
    }
}

/// How many of the first `i` characters stand after the last line feed
/// among them.
pub open spec fn offset_after(text: Seq<char>, i: int) -> int
    decreases i,
{
    if i <= 0 || text[i - 1] == '\n' {
        0
    } else {
        offset_after(text, i - 1) + 1
    }
}

/// Where the cursor stands after the first `i` characters: each character
/// moves it one to the right, and a line feed then moves it to the start of
/// the next line.
pub open spec fn cursor_after(text: Seq<char>, i: int) -> Position {
    Position(line_after(text, i) as u32, offset_after(text, i) as u32)
}

/// The place of character `i`: one to the right of where the cursor stood
/// before it.
pub open spec fn position_at(text: Seq<char>, i: int) -> Position {
    Position(line_after(text, i) as u32, (offset_after(text, i) + 1) as u32)
}

/// Whether the places of a text can be counted: no line is longer and there
/// are no more lines than a place can hold.
pub open spec fn countable(text: Seq<char>) -> bool {
    &&& line_after(text, text.len() as int) <= u32::MAX
    &&& forall|i: int| 0 <= i < text.len() ==> #[trigger] offset_after(text, i) < u32::MAX
}

/// The place that a run of repeated characters gets when it ends before
/// character `i`: the place of that character, or, at the end of the text,
/// where the cursor has come to rest.
pub open spec fn place_after_run(text: Seq<char>, i: int) -> Position {
    if i < text.len() {
        position_at(text, i)
    } else {
        cursor_after(text, text.len() as int)
    }
}

/// How many characters in a row, from character `i` on, are equal to it.
pub open spec fn run_length(text: Seq<char>, i: int) -> nat
    decreases text.len() - i,
{
    if 0 <= i < text.len() {
        if i + 1 < text.len() && text[i + 1] == text[i] {
            1 + run_length(text, i + 1)
        } else {
            1
        }
    } else {
        0
    }
}

/// A run starts inside the text and ends inside it or at its end.
pub proof fn lemma_run_length_bound(text: Seq<char>, i: int)
    requires
        0 <= i < text.len(),
    ensures
        1 <= run_length(text, i),
        i + run_length(text, i) <= text.len(),
    decreases text.len() - i,
{
    if i + 1 < text.len() && text[i + 1] == text[i] {
        lemma_run_length_bound(text, i + 1);
    }
}

/// The tokens of the text from character `i` on, where no run is open at
/// `i`, closed by the token for the end of the program.
pub open spec fn scanned_from(text: Seq<char>, i: int) -> Seq<Token>
    decreases text.len() - i,
{
    if 0 <= i < text.len() {
        let character = text[i];
        if repeats(character) {
            proof {
                lemma_run_length_bound(text, i);
            }
            let count = run_length(text, i);
            seq![
                Token {
                    kind: repeated(character, count as usize),
                    position: place_after_run(text, i + count),
                },
            ] + scanned_from(text, i + count)
        } else {
            match single(character) {
                Some(kind) => seq![Token { kind, position: position_at(text, i) }] + scanned_from(
                    text,
                    i + 1,
                ),
                None => scanned_from(text, i + 1),
            }
        }
    } else {
        seq![Token { kind: TokenKind::EOF, position: cursor_after(text, text.len() as int) }]
    }
}

/// The tokens of a text end with the end of the program, which stands
/// nowhere else among them, and every count among them is at least one
/// where the places of the text can be counted.
pub proof fn lemma_scanned_shape(text: Seq<char>, i: int)
    requires
        0 <= i,
    ensures
        scanned_from(text, i).len() > 0,
        scanned_from(text, i).last().kind is EOF,
        forall|x: int|
            0 <= x < scanned_from(text, i).len() - 1 ==> !((#[trigger] scanned_from(
                text,
                i,
            )[x]).kind is EOF),
        countable(text) ==> forall|x: int|
            0 <= x < scanned_from(text, i).len() && (#[trigger] scanned_from(
                text,
                i,
            )[x]).kind.carries_count() ==> scanned_from(text, i)[x].kind.count() >= 1,
    decreases text.len() - i,
{
    if i < text.len() {
        let character = text[i];
        if repeats(character) {
            lemma_run_length_bound(text, i);
            lemma_scanned_shape(text, i + run_length(text, i));
            if countable(text) {
                lemma_run_offsets(text, i, run_length(text, i) - 1);
                lemma_cursor_bound(text, i);
            }
        } else {
            lemma_scanned_shape(text, i + 1);
        }
    }
}

/// Along a run of one character that is no line feed, the offset grows by
/// one with each character.
pub proof fn lemma_run_offsets(text: Seq<char>, start: int, k: int)
    requires
        0 <= start,
        0 <= k < run_length(text, start),
        text[start] != '\n',
    ensures
        start + k < text.len(),
        text[start + k] == text[start],
        offset_after(text, start + k) == offset_after(text, start) + k,
    decreases k,
{
    lemma_run_length_bound(text, start);
    if k > 0 {
        lemma_run_tail(text, start);
        lemma_run_offsets(text, start + 1, k - 1);
    }
}

/// A run of more than one character goes on with a run that is one shorter.
pub proof fn lemma_run_tail(text: Seq<char>, start: int)
    requires
        0 <= start,
        run_length(text, start) > 1,
    ensures
        start + 1 < text.len(),
        text[start + 1] == text[start],
        run_length(text, start + 1) == run_length(text, start) - 1,
{
}

/// What is said of a character that may not stand in a program.
pub open spec fn unrecognized(character: char) -> Seq<char> {
    "Unrecognized character: "@ + seq![character]
}

/// The complaints about the text from character `i` on: one for each
/// character that may not stand in a program, in the order of the text.
pub open spec fn complaints_from(text: Seq<char>, i: int) -> Seq<(Position, Seq<char>)>
    decreases text.len() - i,
{
    if 0 <= i < text.len() {
        if recognized(text[i]) {
            complaints_from(text, i + 1)
        } else {
            seq![(position_at(text, i), unrecognized(text[i]))] + complaints_from(text, i + 1)
        }
    } else {
        Seq::empty()
    }
}

/// The places and messages of a list of errors.
pub open spec fn complaints(errors: Seq<(Position, String)>) -> Seq<(Position, Seq<char>)> {
    errors.map_values(|error: (Position, String)| (error.0, error.1@))
}

/// What scanning a text gives: its tokens where every character may stand
/// in a program, else the complaints.
pub open spec fn scanned(text: Seq<char>) -> Result<Seq<Token>, Seq<(Position, Seq<char>)>> {
    if complaints_from(text, 0).len() == 0 {
        Ok(scanned_from(text, 0))
    } else {
        Err(complaints_from(text, 0))
    }
}

/// The cursor has counted no more lines and places than characters.
pub proof fn lemma_cursor_bound(text: Seq<char>, i: int)
    requires
        0 <= i,
    ensures
        0 <= line_after(text, i),
        0 <= offset_after(text, i),
        line_after(text, i) + offset_after(text, i) <= i,
    decreases i,
{
    if i > 0 {
        lemma_cursor_bound(text, i - 1);
    }
}

/// The count of lines does not go down along the text.
pub proof fn lemma_lines_grow(text: Seq<char>, i: int, j: int)
    requires
        0 <= i <= j,
    ensures
        line_after(text, i) <= line_after(text, j),
    decreases j - i,
{
    if i < j {
        lemma_lines_grow(text, i, j - 1);
    }
}

/// The places of a text of at most `u32::MAX` characters can be counted.
pub proof fn lemma_short_text_countable(text: Seq<char>)
    requires
        text.len() <= u32::MAX,
    ensures
        countable(text),
{
    lemma_cursor_bound(text, text.len() as int);
    assert forall|i: int| 0 <= i < text.len() implies #[trigger] offset_after(text, i)
        < u32::MAX by {
        lemma_cursor_bound(text, i);
    }
}

/// A stretch of one character that ends before another character, or with
/// the text, is a whole run, and a run of a character that repeats makes
/// one token.
proof fn lemma_run_closed(text: Seq<char>, start: int, end: int)
    requires
        0 <= start < end <= text.len(),
        forall|k: int| start <= k < end ==> text[k] == text[start],
        end < text.len() ==> text[end] != text[start],
    ensures
        run_length(text, start) == end - start,
        repeats(text[start]) ==> scanned_from(text, start) == seq![
            Token {
                kind: repeated(text[start], (end - start) as usize),
                position: place_after_run(text, end),
            },
        ] + scanned_from(text, end),
    decreases end - start,
{
    if start + 1 < end {
        lemma_run_closed(text, start + 1, end);
    }
}

/// Whether the places of a text can be counted.
pub fn is_countable(text: &str) -> (fits: bool)
    ensures
        fits == countable(text@),
{
    let mut line: u32 = 0;
    let mut offset: u32 = 0;
    for character in it: text.chars()
        invariant
            it.seq() == text@,
            line == line_after(text@, it.index() as int),
            offset == offset_after(text@, it.index() as int),
            forall|j: int| 0 <= j < it.index() ==> #[trigger] offset_after(text@, j) < u32::MAX,
    {
        let ghost i = it.index() as int;
        if offset == u32::MAX {
            return false;
        }
        if character == '\n' {
            if line == u32::MAX {
                proof {
                    lemma_lines_grow(text@, i + 1, text@.len() as int);
                }
                return false;
            }
            line += 1;
            offset = 0;
        } else {
            offset += 1;
        }
    }
    true
}

/// The scanner of a program text.
pub struct Lexer {
    inner: String,
}

impl View for Lexer {
    type V = Seq<char>;

    closed spec fn view(&self) -> Seq<char> {
        self.inner@
    }
}

impl Lexer {
    /// A scanner for the text.
    pub fn new(inner: String) -> (lexer: Self)
        ensures
            lexer@ == inner@,
    {
        Self { inner }
    }

    /// Scans the text. Lines and offsets are kept in 32 bits, so the text
    /// may hold no more of either than they can count.
    pub fn scan_tokens(self) -> (outcome: Result<Vec<Token>, Vec<LexError>>)
        requires
            countable(self@),
        ensures
            scanned(self@) == match outcome {
                Ok(tokens) => Ok::<Seq<Token>, Seq<(Position, Seq<char>)>>(tokens@),
                Err(errors) => Err(complaints(errors@)),
            },
    {
        let ghost text = self.inner@;
        let mut stacked: Option<(char, usize)> = None;
        let mut tokens: Vec<Token> = Vec::new();
        let mut errors: Vec<LexError> = Vec::new();
        let mut position = Position::new(0, 0);
        assert(complaints(errors@) =~= Seq::empty());
        for character in it: self.inner.chars()
            invariant
                it.seq() == text,
                countable(text),
                position.0 == line_after(text, it.index() as int),
                position.1 == offset_after(text, it.index() as int),
                complaints(errors@) + complaints_from(text, it.index() as int) == complaints_from(
                    text,
                    0,
                ),
                match stacked {
                    None => tokens@ + scanned_from(text, it.index() as int) == scanned_from(text, 0),
                    Some((symbol, count)) => {
                        &&& 1 <= count <= it.index()
                        &&& count <= position.1
                        &&& repeats(symbol)
                        &&& forall|k: int| it.index() - count <= k < it.index() ==> text[k] == symbol
                        &&& tokens@ + scanned_from(text, it.index() - count) == scanned_from(text, 0)
                    },
                },
        {
            let ghost i = it.index() as int;
            proof {
                lemma_cursor_bound(text, i);
                lemma_lines_grow(text, i + 1, text.len() as int);
            }
            position.increment_offset();
            if let Some((symbol, count)) = stacked {
                if character != symbol {
                    proof {
                        lemma_run_closed(text, i - count, i);
                    }
                    let ghost before = tokens@;
                    match symbol {
                        '+' => tokens.push(Token::new(TokenKind::Increment(count), position)),
                        '-' => tokens.push(Token::new(TokenKind::Decrement(count), position)),
                        '>' => tokens.push(Token::new(TokenKind::Right(count), position)),
                        '<' => tokens.push(Token::new(TokenKind::Left(count), position)),
                        _ => {},
                    }
                    stacked = None;
                    assert(tokens@ =~= before + seq![
                        Token { kind: repeated(symbol, count), position: place_after_run(text, i) },
                    ]);
                    assert(tokens@ + scanned_from(text, i) =~= scanned_from(text, 0));
                }
            }
            match character {
                '+' | '-' | '<' | '>' => {
                    stacked = match stacked {
                        None => Some((character, 1)),
                        Some((symbol, count)) => Some((symbol, count + 1)),
                    };
                },
                '.' => tokens.push(Token::new(TokenKind::PutChar, position)),
                ',' => tokens.push(Token::new(TokenKind::ReadChar, position)),
                '[' => tokens.push(Token::new(TokenKind::LoopStart, position)),
                ']' => tokens.push(Token::new(TokenKind::LoopEnd, position)),
                '\n' => position.increment_line_number(),
                ' ' | '\t' => {},
                _ => {
                    let message = String::from_str("Unrecognized character: ").concat(
                        char_text(character).as_str(),
                    );
                    let ghost before = errors@;
                    errors.push((position, message));
                    assert(complaints(errors@) =~= complaints(before).push(
                        (position, message@),
                    ));
                },
            }
        }
        let ghost end = text.len() as int;
        let ghost before = tokens@;
        if let Some((symbol, count)) = stacked {
            proof {
                lemma_run_closed(text, end - count, end);
            }
            match symbol {
                '+' => tokens.push(Token::new(TokenKind::Increment(count), position)),
                '-' => tokens.push(Token::new(TokenKind::Decrement(count), position)),
                '>' => tokens.push(Token::new(TokenKind::Right(count), position)),
                '<' => tokens.push(Token::new(TokenKind::Left(count), position)),
                _ => {},
            }
        }
        tokens.push(Token::new(TokenKind::EOF, position));
        proof {
            assert(scanned_from(text, end) =~= seq![Token { kind: TokenKind::EOF, position }]);
            if let Some((symbol, count)) = stacked {
                assert(tokens@ =~= before + (seq![
                    Token { kind: repeated(symbol, count), position: place_after_run(text, end) },
                ] + scanned_from(text, end)));
            }
            assert(tokens@ =~= scanned_from(text, 0));
            assert(complaints_from(text, end) =~= Seq::empty());
            assert(complaints(errors@) =~= complaints_from(text, 0));
        }
        if errors.len() == 0 {
            Ok(tokens)
        } else {
            Err(errors)
        }
    }
}

} // verus!
