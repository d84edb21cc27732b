//! The lexer: from the text of a source to its tokens.
//!
//! A source is read line by line. White space separates tokens. A token is
//! one of the punctuation marks `( ) { } , ; | ! < >`, a name, or a symbol
//! between single quotes, in which `\\` stands for a backslash and `\'` for
//! a quote. The first fault ends the tokens: it is reported when the
//! reader of the tokens comes to it.

use vstd::prelude::*;
use vstd::string::StringExecFns;
use crate::error::{Error, ErrorKind, Failure};
use crate::text::{
    alphabetic, alphanumeric, chars_of, escape_debug, escaped, is_alphabetic, is_alphanumeric,
    is_plain, is_whitespace, plain, push_char, whitespace,
};

verus! {

/// Where a token stands in the source: its line, the number of characters
/// before it on that line, and its own length in characters. Lines and
/// columns count from zero.
#[derive(Clone, Copy, Debug, PartialEq, Eq, Structural)]
pub struct Span {
    pub line: usize,
    pub column: usize,
    pub len: usize,
}

/// What a token is.
#[derive(Debug, PartialEq)]
pub enum TokenKind {
    LParen,
    RParen,
    LBrace,
    RBrace,
    Comma,
    Semi,
    Bar,
    Bang,
    Left,
    Right,
    /// A name, with its text.
    Name(String),
    /// A symbol, with its text without quotes and escapes.
    Symbol(String),
    Eof,
}

/// The mathematical value of a [`TokenKind`].
pub enum KindModel {
    LParen,
    RParen,
    LBrace,
    RBrace,
    Comma,
    Semi,
    Bar,
    Bang,
    Left,
    Right,
    Name(Seq<char>),
    Symbol(Seq<char>),
    Eof,
}

impl View for TokenKind {
    type V = KindModel;

    open spec fn view(&self) -> KindModel {
        match self {
            TokenKind::LParen => KindModel::LParen,
            TokenKind::RParen => KindModel::RParen,
            TokenKind::LBrace => KindModel::LBrace,
            TokenKind::RBrace => KindModel::RBrace,
            TokenKind::Comma => KindModel::Comma,
            TokenKind::Semi => KindModel::Semi,
            TokenKind::Bar => KindModel::Bar,
            TokenKind::Bang => KindModel::Bang,
            TokenKind::Left => KindModel::Left,
            TokenKind::Right => KindModel::Right,
            TokenKind::Name(text) => KindModel::Name(text@),
            TokenKind::Symbol(text) => KindModel::Symbol(text@),
            TokenKind::Eof => KindModel::Eof,
        }
    }
}

/// A kind of token, without its text.
#[derive(Clone, Copy, Debug, PartialEq, Eq, Structural)]
pub enum Tag {
    LParen,
    RParen,
    LBrace,
    RBrace,
    Comma,
    Semi,
    Bar,
    Bang,
    Left,
    Right,
    Name,
    Symbol,
    Eof,
}

/// The kind of a token without its text.
pub open spec fn tag_of(kind: KindModel) -> Tag {
    match kind {
        KindModel::LParen => Tag::LParen,
        KindModel::RParen => Tag::RParen,
        KindModel::LBrace => Tag::LBrace,
        KindModel::RBrace => Tag::RBrace,
        KindModel::Comma => Tag::Comma,
        KindModel::Semi => Tag::Semi,
        KindModel::Bar => Tag::Bar,
        KindModel::Bang => Tag::Bang,
        KindModel::Left => Tag::Left,
        KindModel::Right => Tag::Right,
        KindModel::Name(_) => Tag::Name,
        KindModel::Symbol(_) => Tag::Symbol,
        KindModel::Eof => Tag::Eof,
    }
}

impl TokenKind {
    /// The kind without its text.
    pub fn tag(&self) -> (tag: Tag)
        ensures
            tag == tag_of(self@),
    {
        match self {
            TokenKind::LParen => Tag::LParen,
            TokenKind::RParen => Tag::RParen,
            TokenKind::LBrace => Tag::LBrace,
            TokenKind::RBrace => Tag::RBrace,
            TokenKind::Comma => Tag::Comma,
            TokenKind::Semi => Tag::Semi,
            TokenKind::Bar => Tag::Bar,
            TokenKind::Bang => Tag::Bang,
            TokenKind::Left => Tag::Left,
            TokenKind::Right => Tag::Right,
            TokenKind::Name(_) => Tag::Name,
            TokenKind::Symbol(_) => Tag::Symbol,
            TokenKind::Eof => Tag::Eof,
        }
    }

    /// How the kind is called in messages.
    pub fn desc(&self) -> (text: &'static str)
        ensures
            text@ == kind_text(self@),
    {
        match self {
            TokenKind::LParen => "`(`",
            TokenKind::RParen => "`)`",
            TokenKind::LBrace => "`{`",
            TokenKind::RBrace => "`}`",
            TokenKind::Comma => "`,`",
            TokenKind::Semi => "`;`",
            TokenKind::Bar => "`|`",
            TokenKind::Bang => "`!`",
            TokenKind::Left => "`<`",
            TokenKind::Right => "`>`",
            TokenKind::Name(_) => "name",
            TokenKind::Symbol(_) => "symbol",
            TokenKind::Eof => "end of file",
        }
    }

    /// A copy.
    pub fn copy(&self) -> (kind: TokenKind)
        ensures
            kind@ == self@,
    {
        match self {
            TokenKind::LParen => TokenKind::LParen,
            TokenKind::RParen => TokenKind::RParen,
            TokenKind::LBrace => TokenKind::LBrace,
            TokenKind::RBrace => TokenKind::RBrace,
            TokenKind::Comma => TokenKind::Comma,
            TokenKind::Semi => TokenKind::Semi,
            TokenKind::Bar => TokenKind::Bar,
            TokenKind::Bang => TokenKind::Bang,
            TokenKind::Left => TokenKind::Left,
            TokenKind::Right => TokenKind::Right,
            TokenKind::Name(text) => TokenKind::Name(text.clone()),
            TokenKind::Symbol(text) => TokenKind::Symbol(text.clone()),
            TokenKind::Eof => TokenKind::Eof,
        }
    }
}

/// How a kind of token is called in messages.
pub open spec fn kind_text(kind: KindModel) -> Seq<char> {
    match kind {
        KindModel::LParen => "`(`"@,
        KindModel::RParen => "`)`"@,
        KindModel::LBrace => "`{`"@,
        KindModel::RBrace => "`}`"@,
        KindModel::Comma => "`,`"@,
        KindModel::Semi => "`;`"@,
        KindModel::Bar => "`|`"@,
        KindModel::Bang => "`!`"@,
        KindModel::Left => "`<`"@,
        KindModel::Right => "`>`"@,
        KindModel::Name(_) => "name"@,
        KindModel::Symbol(_) => "symbol"@,
        KindModel::Eof => "end of file"@,
    }
}

/// A token and where it stands.
#[derive(Debug)]
pub struct Token {
    pub kind: TokenKind,
    pub span: Span,
}

/// The mathematical value of a [`Token`].
pub struct TokenModel {
    pub kind: KindModel,
    pub span: Span,
}

impl View for Token {
    type V = TokenModel;

    open spec fn view(&self) -> TokenModel {
        TokenModel { kind: self.kind@, span: self.span }
    }
}

impl Token {
    /// A copy.
    pub fn copy(&self) -> (token: Token)
        ensures
            token@ == self@,
    {
        Token { kind: self.kind.copy(), span: self.span }
    }
}

/// The values of a list of tokens.
pub open spec fn tokens_view(tokens: Seq<Token>) -> Seq<TokenModel> {
    Seq::new(tokens.len(), |i: int| tokens[i]@)
}

/// A line without the carriage return at its end, if it has one.
pub open spec fn without_cr(line: Seq<char>) -> Seq<char> {
    if line.len() > 0 && line.last() == '\r' {
        line.drop_last()
    } else {
        line
    }
}

/// The lines that the first `n` characters of a text end, and the
/// beginning of the line after them.
pub open spec fn split_upto(code: Seq<char>, n: int) -> (Seq<Seq<char>>, Seq<char>)
    decreases n,
{
    if n <= 0 {
        (Seq::empty(), Seq::empty())
    } else {
        let (done, current) = split_upto(code, n - 1);
        if code[n - 1] == '\n' {
            (done.push(without_cr(current)), Seq::empty())
        } else {
            (done, current.push(code[n - 1]))
        }
    }
}

/// The lines of a text. A line ends with a line feed, or with a carriage
/// return and a line feed; the last line needs no end.
pub open spec fn lines_of(code: Seq<char>) -> Seq<Seq<char>> {
    let (done, current) = split_upto(code, code.len() as int);
    if current.len() > 0 {
        done.push(current)
    } else {
        done
    }
}

/// The views of a list of lines.
pub open spec fn lines_view(lines: Seq<Vec<char>>) -> Seq<Seq<char>> {
    Seq::new(lines.len(), |i: int| lines[i]@)
}

/// Splits a text into its lines.
pub fn split_lines(code: &Vec<char>) -> (lines: Vec<Vec<char>>)
    ensures
        lines_view(lines@) == lines_of(code@),
{
    let mut lines: Vec<Vec<char>> = Vec::new();
    let mut current: Vec<char> = Vec::new();
    let mut i: usize = 0;
    assert(lines_view(lines@) =~= Seq::<Seq<char>>::empty());
    while i < code.len()
        invariant
            i <= code.len(),
            split_upto(code@, i as int) == (lines_view(lines@), current@),
        decreases code.len() - i,
    {
        let c: char = code[i];
        let ghost before = lines_view(lines@);
        if c == '\n' {
            if current.len() > 0 && current[current.len() - 1] == '\r' {
                current.pop();
            }
            let ghost line = current@;
            let mut done: Vec<char> = Vec::new();
            std::mem::swap(&mut done, &mut current);
            lines.push(done);
            assert(lines_view(lines@) =~= before.push(line));
        } else {
            current.push(c);
        }
        i += 1;
    }
    if current.len() > 0 {
        let ghost before = lines_view(lines@);
        let ghost line = current@;
        lines.push(current);
        assert(lines_view(lines@) =~= before.push(line));
    }
    lines
}

/// A fault of the lexer on one line: its kind, the column, and the number
/// of characters that it is about.
pub struct Fault {
    pub kind: ErrorKind,
    pub column: int,
    pub len: int,
}

/// The first column from `col` on that holds no white space, or the fault
/// of a tab on the way where tabs are not allowed.
pub open spec fn skip_blank(line: Seq<char>, col: int, allow_tabs: bool) -> Result<int, Fault>
    decreases line.len() - col,
{
    if col < 0 || col >= line.len() || !whitespace(line[col]) {
        Ok(col)
    } else if !allow_tabs && line[col] == '\t' {
        Err(Fault { kind: ErrorKind::TabNotAllowed, column: col, len: 1 })
    } else {
        skip_blank(line, col + 1, allow_tabs)
    }
}

/// The column after the name whose first character stands at `col - 1`.
pub open spec fn name_end(line: Seq<char>, col: int) -> int
    decreases line.len() - col,
{
    if 0 <= col < line.len() && (alphanumeric(line[col]) || line[col] == '_') {
        name_end(line, col + 1)
    } else {
        col
    }
}

/// The text of the symbol that goes on at column `at`, and the column of
/// its closing quote. `open` is the column of its opening quote.
pub open spec fn symbol_rest(line: Seq<char>, open: int, at: int) -> Result<(Seq<char>, int), Fault>
    decreases line.len() - at,
{
    if at < 0 || at >= line.len() {
        Err(Fault { kind: ErrorKind::UnterminatedSymbol, column: open, len: line.len() - open })
    } else if line[at] == '\'' {
        Ok((Seq::empty(), at))
    } else if line[at] == '\\' {
        if at + 1 < line.len() && (line[at + 1] == '\\' || line[at + 1] == '\'') {
            match symbol_rest(line, open, at + 2) {
                Ok((rest, end)) => Ok((seq![line[at + 1]] + rest, end)),
                Err(f) => Err(f),
            }
        } else {
            Err(
                Fault {
                    kind: ErrorKind::InvalidEscape,
                    column: at,
                    len: if at + 1 < line.len() {
                        2
                    } else {
                        1
                    },
                },
            )
        }
    } else if plain(line[at]) {
        match symbol_rest(line, open, at + 1) {
            Ok((rest, end)) => Ok((seq![line[at]] + rest, end)),
            Err(f) => Err(f),
        }
    } else {
        Err(Fault { kind: ErrorKind::WeirdCharacter, column: at, len: 1 })
    }
}

/// The kind of a punctuation mark.
pub open spec fn mark(c: char) -> Option<KindModel> {
    if c == '(' {
        Some(KindModel::LParen)
    } else if c == ')' {
        Some(KindModel::RParen)
    } else if c == '{' {
        Some(KindModel::LBrace)
    } else if c == '}' {
        Some(KindModel::RBrace)
    } else if c == ',' {
        Some(KindModel::Comma)
    } else if c == ';' {
        Some(KindModel::Semi)
    } else if c == '|' {
        Some(KindModel::Bar)
    } else if c == '!' {
        Some(KindModel::Bang)
    } else if c == '<' {
        Some(KindModel::Left)
    } else if c == '>' {
        Some(KindModel::Right)
    } else {
        None
    }
}

/// The token that starts at column `col`, which holds no white space, and
/// the column after it.
pub open spec fn token_at(line: Seq<char>, col: int) -> Result<(KindModel, int), Fault> {
    let c = line[col];
    if mark(c) is Some {
        Ok((mark(c)->0, col + 1))
    } else if c == '\'' {
        match symbol_rest(line, col, col + 1) {
            Ok((text, end)) => Ok((KindModel::Symbol(text), end + 1)),
            Err(f) => Err(f),
        }
    } else if c == '_' || alphabetic(c) {
        Ok((KindModel::Name(line.subrange(col, name_end(line, col + 1))), name_end(line, col + 1)))
    } else {
        Err(Fault { kind: ErrorKind::UnexpectedCharacter, column: col, len: 1 })
    }
}

/// The tokens of a line from column `col` on, and the fault that ends
/// them, if there is one.
pub open spec fn line_tokens(line: Seq<char>, number: usize, col: int, allow_tabs: bool) -> (
    Seq<TokenModel>,
    Option<Fault>,
)
    decreases line.len() - col,
{
    match skip_blank(line, col, allow_tabs) {
        Err(f) => (Seq::empty(), Some(f)),
        Ok(at) => if at < 0 || at >= line.len() {
            (Seq::empty(), None)
        } else {
            match token_at(line, at) {
                Err(f) => (Seq::empty(), Some(f)),
                Ok((kind, end)) => if end <= at || end > line.len() || at < col {
                    (Seq::empty(), None)
                } else {
                    let (rest, fault) = line_tokens(line, number, end, allow_tabs);
                    (
                        seq![
                            TokenModel {
                                kind,
                                span: Span {
                                    line: number,
                                    column: at as usize,
                                    len: (end - at) as usize,
                                },
                            },
                        ] + rest,
                        fault,
                    )
                },
            }
        },
    }
}

/// What a fault on a line says as an error.
pub open spec fn fault_failure(fault: Fault, line: usize) -> Failure {
    Failure {
        kind: fault.kind,
        span: Some(Span { line, column: fault.column as usize, len: fault.len as usize }),
    }
}

/// The tokens of the first `n` lines, and the fault that ends them, if
/// there is one.
pub open spec fn lines_tokens(lines: Seq<Seq<char>>, n: int, allow_tabs: bool) -> (
    Seq<TokenModel>,
    Option<Failure>,
)
    decreases n,
{
    if n <= 0 {
        (Seq::empty(), None)
    } else {
        let (before, failure) = lines_tokens(lines, n - 1, allow_tabs);
        if failure is Some {
            (before, failure)
        } else {
            let (tokens, fault) = line_tokens(lines[n - 1], (n - 1) as usize, 0, allow_tabs);
            (
                before + tokens,
                match fault {
                    Some(f) => Some(fault_failure(f, (n - 1) as usize)),
                    None => None,
                },
            )
        }
    }
}

/// The tokens of a source that is not empty, and the fault that ends them,
/// if there is one. Without a fault, the last token is the end of the
/// file, at the end of the last line.
pub open spec fn source_tokens(lines: Seq<Seq<char>>, allow_tabs: bool) -> (
    Seq<TokenModel>,
    Option<Failure>,
) {
    let (tokens, failure) = lines_tokens(lines, lines.len() as int, allow_tabs);
    if failure is Some {
        (tokens, failure)
    } else {
        (
            tokens.push(
                TokenModel {
                    kind: KindModel::Eof,
                    span: Span {
                        line: (lines.len() - 1) as usize,
                        column: lines.last().len() as usize,
                        len: 0,
                    },
                },
            ),
            None,
        )
    }
}

/// The punctuation mark that a character is, if it is one.
pub fn mark_of(c: char) -> (r: Option<TokenKind>)
    ensures
        match r {
            Some(kind) => mark(c) == Some(kind@),
            None => mark(c) is None,
        },
{
    if c == '(' {
        Some(TokenKind::LParen)
    } else if c == ')' {
        Some(TokenKind::RParen)
    } else if c == '{' {
        Some(TokenKind::LBrace)
    } else if c == '}' {
        Some(TokenKind::RBrace)
    } else if c == ',' {
        Some(TokenKind::Comma)
    } else if c == ';' {
        Some(TokenKind::Semi)
    } else if c == '|' {
        Some(TokenKind::Bar)
    } else if c == '!' {
        Some(TokenKind::Bang)
    } else if c == '<' {
        Some(TokenKind::Left)
    } else if c == '>' {
        Some(TokenKind::Right)
    } else {
        None
    }
}

/// A character as a message shows it: a double quote as itself, any other
/// character escaped for debugging.
pub open spec fn shown(c: char) -> Seq<char> {
    if c == '"' {
        seq!['"']
    } else {
        escaped(c)
    }
}

/// The message of a fault of kind `kind` about the character `c`. Only a
/// message about a character shows it.
pub open spec fn fault_text(kind: ErrorKind, c: char) -> Seq<char> {
    match kind {
        ErrorKind::TabNotAllowed => "tab characters are not allowed"@,
        ErrorKind::InvalidEscape => "invalid escape sequence (only '\\'' and '\\\\' are supported)"@,
        ErrorKind::WeirdCharacter => "weird character '"@ + shown(c) + "' is not allowed"@,
        ErrorKind::UnterminatedSymbol => "unterminated symbol"@,
        _ => "unexpected character '"@ + shown(c) + "'"@,
    }
}

/// The message of the fault `f` of a source with the lines `lines`: it is
/// about the character at the place of the fault.
pub open spec fn message_of(lines: Seq<Seq<char>>, f: Failure) -> Seq<char> {
    match f.span {
        Some(span) => fault_text(f.kind, lines[span.line as int][span.column as int]),
        None => Seq::empty(),
    }
}

/// A character as a message shows it.
pub fn show(c: char) -> (text: String)
    ensures
        text@ == shown(c),
{
    if c == '"' {
        let mut text = String::new();
        push_char(&mut text, c);
        assert(text@ =~= seq!['"']);
        text
    } else {
        escape_debug(c)
    }
}

/// An error of the lexer. `c` is the character that an error about a
/// character is about.
pub fn lex_error(kind: ErrorKind, line: usize, column: usize, len: usize, c: char) -> (e: Error)
    ensures
        e@ == (Failure { kind, span: Some(Span { line, column, len }) }),
        e.msg@ == fault_text(kind, c),
{
    let msg = match kind {
        ErrorKind::TabNotAllowed => String::from_str("tab characters are not allowed"),
        ErrorKind::InvalidEscape => String::from_str(
            "invalid escape sequence (only '\\'' and '\\\\' are supported)",
        ),
        ErrorKind::WeirdCharacter => {
            let mut msg = String::from_str("weird character '");
            msg.append(show(c).as_str());
            msg.append("' is not allowed");
            msg
        },
        ErrorKind::UnterminatedSymbol => String::from_str("unterminated symbol"),
        _ => {
            let mut msg = String::from_str("unexpected character '");
            msg.append(show(c).as_str());
            msg.append("'");
            msg
        },
    };
    Error::new(kind, msg, Some(Span { line, column, len }))
}

/// Skips white space from column `col` on.
pub fn strip_whitespace(line: &Vec<char>, col: usize, allow_tabs: bool) -> (r: Result<
    usize,
    usize,
>)
    requires
        col <= line.len(),
    ensures
        match skip_blank(line@, col as int, allow_tabs) {
            Ok(at) => r == Ok::<usize, usize>(at as usize) && col <= at <= line.len(),
            Err(f) => r == Err::<usize, usize>(f.column as usize) && f.kind
                == ErrorKind::TabNotAllowed && f.len == 1 && col <= f.column < line.len(),
        },
{
    let mut at: usize = col;
    while at < line.len()
        invariant
            col <= at <= line.len(),
            skip_blank(line@, col as int, allow_tabs) == skip_blank(
                line@,
                at as int,
                allow_tabs,
            ),
        decreases line.len() - at,
    {
        let c: char = line[at];
        if !is_whitespace(c) {
            return Ok(at);
        }
        if !allow_tabs && c == '\t' {
            return Err(at);
        }
        at += 1;
    }
    Ok(at)
}

/// Reads a name whose first character stands before column `col`.
pub fn name(line: &Vec<char>, col: usize) -> (end: usize)
    requires
        col <= line.len(),
    ensures
        end == name_end(line@, col as int),
        col <= end <= line.len(),
{
    let mut at: usize = col;
    while at < line.len()
        invariant
            col <= at <= line.len(),
            name_end(line@, col as int) == name_end(line@, at as int),
        decreases line.len() - at,
    {
        let c: char = line[at];
        if !(is_alphanumeric(c) || c == '_') {
            return at;
        }
        at += 1;
    }
    at
}

/// Reads the rest of a symbol from column `from` on; `open` is the column
/// of its opening quote.
pub fn symbol(line: &Vec<char>, number: usize, open: usize, from: usize) -> (r: Result<
    (String, usize),
    Error,
>)
    requires
        open < from <= line.len(),
    ensures
        match symbol_rest(line@, open as int, from as int) {
            Ok((text, end)) => r is Ok && r->Ok_0.0@ == text && r->Ok_0.1 == end && from <= end
                < line.len(),
            Err(f) => r is Err && r->Err_0@ == fault_failure(f, number) && r->Err_0.msg@
                == fault_text(f.kind, line@[f.column]) && 0 <= f.column < line.len(),
        },
{
    let mut text = String::new();
    let mut at: usize = from;
    loop
        invariant
            open < from <= at <= line.len(),
            match symbol_rest(line@, open as int, at as int) {
                Ok((rest, end)) => symbol_rest(line@, open as int, from as int) == Ok::<
                    (Seq<char>, int),
                    Fault,
                >((text@ + rest, end)),
                Err(f) => symbol_rest(line@, open as int, from as int) == Err::<
                    (Seq<char>, int),
                    Fault,
                >(f),
            },
        decreases line.len() - at,
    {
        if at >= line.len() {
            return Err(
                lex_error(ErrorKind::UnterminatedSymbol, number, open, line.len() - open, '\''),
            );
        }
        let c: char = line[at];
        let ghost before = text@;
        if c == '\'' {
            assert(text@ + Seq::<char>::empty() =~= text@);
            return Ok((text, at));
        } else if c == '\\' {
            if at + 1 < line.len() && (line[at + 1] == '\\' || line[at + 1] == '\'') {
                push_char(&mut text, line[at + 1]);
                proof {
                    match symbol_rest(line@, open as int, at + 2) {
                        Ok((rest, end)) => {
                            assert(text@ + rest =~= before + (seq![line[at + 1]] + rest));
                        },
                        Err(f) => {},
                    }
                }
                at += 2;
            } else {
                let len: usize = if at + 1 < line.len() {
                    2
                } else {
                    1
                };
                return Err(lex_error(ErrorKind::InvalidEscape, number, at, len, c));
            }
        } else if is_plain(c) {
            push_char(&mut text, c);
            proof {
                match symbol_rest(line@, open as int, at + 1) {
                    Ok((rest, end)) => {
                        assert(text@ + rest =~= before + (seq![c] + rest));
                    },
                    Err(f) => {},
                }
            }
            at += 1;
        } else {
            return Err(lex_error(ErrorKind::WeirdCharacter, number, at, 1, c));
        }
    }
}

/// The characters of a line from column `from` up to column `to`, as a
/// text.
pub fn slice_text(line: &Vec<char>, from: usize, to: usize) -> (text: String)
    requires
        from <= to <= line.len(),
    ensures
        text@ == line@.subrange(from as int, to as int),
{
    let mut text = String::new();
    let mut i: usize = from;
    assert(text@ =~= line@.subrange(from as int, from as int));
    while i < to
        invariant
            from <= i <= to <= line.len(),
            text@ == line@.subrange(from as int, i as int),
        decreases to - i,
    {
        push_char(&mut text, line[i]);
        i += 1;
        assert(text@ =~= line@.subrange(from as int, i as int));
    }
    text
}

/// Reads the token at column `at`, which holds no white space.
pub fn token(line: &Vec<char>, number: usize, at: usize) -> (r: Result<(TokenKind, usize), Error>)
    requires
        at < line.len(),
    ensures
        match token_at(line@, at as int) {
            Ok((kind, end)) => r is Ok && r->Ok_0.0@ == kind && r->Ok_0.1 == end && at < end
                <= line.len(),
            Err(f) => r is Err && r->Err_0@ == fault_failure(f, number) && r->Err_0.msg@
                == fault_text(f.kind, line@[f.column]) && 0 <= f.column < line.len(),
        },
{
    let c: char = line[at];
    match mark_of(c) {
        Some(kind) => {
            return Ok((kind, at + 1));
        },
        None => {},
    }
    if c == '\'' {
        match symbol(line, number, at, at + 1) {
            Ok((text, end)) => Ok((TokenKind::Symbol(text), end + 1)),
            Err(e) => Err(e),
        }
    } else if c == '_' || is_alphabetic(c) {
        let end: usize = name(line, at + 1);
        Ok((TokenKind::Name(slice_text(line, at, end)), end))
    } else {
        Err(lex_error(ErrorKind::UnexpectedCharacter, number, at, 1, c))
    }
}

/// Reads the tokens of one line and adds them to `out`.
pub fn lex_line(line: &Vec<char>, number: usize, allow_tabs: bool, out: &mut Vec<Token>) -> (r:
    Option<Error>)
    ensures
        tokens_view(final(out)@) == tokens_view(old(out)@) + line_tokens(
            line@,
            number,
            0,
            allow_tabs,
        ).0,
        match line_tokens(line@, number, 0, allow_tabs).1 {
            Some(f) => r is Some && r->0@ == fault_failure(f, number) && r->0.msg@
                == fault_text(f.kind, line@[f.column]) && 0 <= f.column < line.len(),
            None => r is None,
        },
{
    let mut col: usize = 0;
    assert(tokens_view(out@) + Seq::<TokenModel>::empty() =~= tokens_view(out@));
    loop
        invariant
            col <= line.len(),
            tokens_view(out@) + line_tokens(line@, number, col as int, allow_tabs).0
                == tokens_view(old(out)@) + line_tokens(line@, number, 0, allow_tabs).0,
            line_tokens(line@, number, col as int, allow_tabs).1 == line_tokens(
                line@,
                number,
                0,
                allow_tabs,
            ).1,
        decreases line.len() - col,
    {
        let at: usize = match strip_whitespace(line, col, allow_tabs) {
            Ok(at) => at,
            Err(tab) => {
                assert(tokens_view(out@) + Seq::<TokenModel>::empty() =~= tokens_view(out@));
                return Some(lex_error(ErrorKind::TabNotAllowed, number, tab, 1, '\t'));
            },
        };
        if at >= line.len() {
            assert(tokens_view(out@) + Seq::<TokenModel>::empty() =~= tokens_view(out@));
            return None;
        }
        let (kind, end) = match token(line, number, at) {
            Ok(pair) => pair,
            Err(e) => {
                assert(tokens_view(out@) + Seq::<TokenModel>::empty() =~= tokens_view(out@));
                return Some(e);
            },
        };
        let ghost before = tokens_view(out@);
        let one = Token { kind, span: Span { line: number, column: at, len: end - at } };
        let ghost model = one@;
        out.push(one);
        proof {
            assert(tokens_view(out@) =~= before.push(model));
            let rest = line_tokens(line@, number, end as int, allow_tabs).0;
            assert(before.push(model) + rest =~= before + (seq![model] + rest));
        }
        col = end;
    }
}

/// The tokens of a source, and the place of the reader in them.
pub struct Tokens {
    /// The tokens up to the end of the file or the first fault.
    pub tokens: Vec<Token>,
    /// The fault after the tokens, if there is one.
    pub error: Option<Error>,
    /// The index of the token that is read next.
    pub next: usize,
}

/// The fault of a list of tokens, if it has one.
pub open spec fn failure_of(error: Option<Error>) -> Option<Failure> {
    match error {
        Some(e) => Some(e@),
        None => None,
    }
}

/// The token at index `i` of a source: past the tokens comes the fault for
/// ever, or the end of the file for ever.
pub open spec fn stream_at(tokens: Seq<TokenModel>, failure: Option<Failure>, i: int) -> Result<
    TokenModel,
    Failure,
> {
    if 0 <= i < tokens.len() {
        Ok(tokens[i])
    } else {
        match failure {
            Some(f) => Err(f),
            None => Ok(tokens.last()),
        }
    }
}

impl Tokens {
    /// The tokens, as values.
    pub open spec fn model(self) -> Seq<TokenModel> {
        tokens_view(self.tokens@)
    }

    /// The fault after the tokens, as a value.
    pub open spec fn failure(self) -> Option<Failure> {
        failure_of(self.error)
    }

    /// Without a fault the tokens end with the end of the file.
    pub open spec fn wf(self) -> bool {
        self.error is None ==> self.tokens.len() > 0 && self.tokens@.last()@.kind
            == KindModel::Eof
    }

    /// Reads the tokens of `code`. Fails with `EmptyFile` where `code` has
    /// no lines, which is where it is empty; the message is `file `, the
    /// path and ` is empty`. Any other fault is kept for the reader.
    pub fn new(code: &str, path: &str, allow_tabs: bool) -> (r: Result<Tokens, Error>)
        ensures
            (lines_of(code@).len() == 0) == (code@.len() == 0),
            lines_of(code@).len() == 0 ==> r is Err && r->Err_0@ == (Failure {
                kind: ErrorKind::EmptyFile,
                span: None,
            }) && r->Err_0.msg@ == "file "@ + path@ + " is empty"@,
            lines_of(code@).len() > 0 ==> {
                &&& r is Ok
                &&& r->Ok_0.wf()
                &&& r->Ok_0.next == 0
                &&& r->Ok_0.model() == source_tokens(lines_of(code@), allow_tabs).0
                &&& r->Ok_0.failure() == source_tokens(lines_of(code@), allow_tabs).1
                &&& r->Ok_0.error is Some ==> r->Ok_0.error->0.msg@ == message_of(
                    lines_of(code@),
                    r->Ok_0.error->0@,
                )
            },
    {
        let chars = chars_of(code);
        let lines = split_lines(&chars);
        proof {
            lemma_lines_of_empty(code@, code@.len() as int);
        }
        if lines.len() == 0 {
            let mut msg = String::from_str("file ");
            msg.append(path);
            msg.append(" is empty");
            return Err(Error::new(ErrorKind::EmptyFile, msg, None));
        }
        let mut tokens: Vec<Token> = Vec::new();
        let mut i: usize = 0;
        assert(tokens_view(tokens@) =~= Seq::<TokenModel>::empty());
        while i < lines.len()
            invariant
                i <= lines.len(),
                lines_view(lines@) == lines_of(code@),
                lines_tokens(lines_of(code@), i as int, allow_tabs) == (
                    tokens_view(tokens@),
                    None::<Failure>,
                ),
            decreases lines.len() - i,
        {
            match lex_line(&lines[i], i, allow_tabs, &mut tokens) {
                Some(e) => {
                    proof {
                        lemma_lines_failure(
                            lines_of(code@),
                            i + 1,
                            lines.len() as int,
                            allow_tabs,
                        );
                        assert(lines_view(lines@)[i as int] == lines[i as int]@);
                        let f = line_tokens(lines[i as int]@, i, 0, allow_tabs).1->0;
                        assert(e@ == fault_failure(f, i));
                        assert(e@.span->0.column == f.column);
                    }
                    return Ok(Tokens { tokens, error: Some(e), next: 0 });
                },
                None => {},
            }
            i += 1;
        }
        let last: usize = lines.len() - 1;
        let ghost before = tokens_view(tokens@);
        let eof = Token {
            kind: TokenKind::Eof,
            span: Span { line: last, column: lines[last].len(), len: 0 },
        };
        let ghost model = eof@;
        tokens.push(eof);
        assert(tokens_view(tokens@) =~= before.push(model));
        Ok(Tokens { tokens, error: None, next: 0 })
    }

    /// The token `k` places after the next one, without reading it.
    pub fn peek_at(&self, k: usize) -> (r: Result<&Token, Error>)
        requires
            self.wf(),
            self.next <= self.tokens.len(),
        ensures
            match stream_at(self.model(), self.failure(), self.next + k) {
                Ok(token) => r is Ok && r->Ok_0@ == token,
                Err(f) => r is Err && r->Err_0@ == f && r->Err_0.msg@ == self.error->0.msg@,
            },
    {
        if k < self.tokens.len() - self.next {
            Ok(&self.tokens[self.next + k])
        } else {
            match &self.error {
                Some(e) => Err(e.copy()),
                None => Ok(&self.tokens[self.tokens.len() - 1]),
            }
        }
    }

    /// Reads the next token. After the last token the end of the file is
    /// read again and again, or the fault of the source.
    pub fn next(&mut self) -> (r: Result<Token, Error>)
        requires
            old(self).wf(),
        ensures
            final(self).wf(),
            final(self).tokens == old(self).tokens,
            final(self).error == old(self).error,
            final(self).next == if old(self).next < old(self).tokens.len() {
                old(self).next + 1
            } else {
                old(self).next as int
            },
            match stream_at(old(self).model(), old(self).failure(), old(self).next as int) {
                Ok(token) => r is Ok && r->Ok_0@ == token,
                Err(f) => r is Err && r->Err_0@ == f && r->Err_0.msg@ == old(self).error->0.msg@,
            },
    {
        if self.next < self.tokens.len() {
            let token = self.tokens[self.next].copy();
            self.next = self.next + 1;
            Ok(token)
        } else {
            match &self.error {
                Some(e) => Err(e.copy()),
                None => Ok(self.tokens[self.tokens.len() - 1].copy()),
            }
        }
    }
}

/// A text has no lines exactly if it is empty: its first characters end
/// a line or begin one.
pub proof fn lemma_lines_of_empty(code: Seq<char>, n: int)
    requires
        0 <= n <= code.len(),
    ensures
        n > 0 ==> split_upto(code, n).0.len() > 0 || split_upto(code, n).1.len() > 0,
        n == code.len() ==> (lines_of(code).len() == 0) == (code.len() == 0),
    decreases n,
{
    if n > 0 {
        lemma_lines_of_empty(code, n - 1);
    }
}

/// The first fault among the lines stays the first below any larger bound.
pub proof fn lemma_lines_failure(lines: Seq<Seq<char>>, n: int, k: int, allow_tabs: bool)
    requires
        n <= k,
        lines_tokens(lines, n, allow_tabs).1 is Some,
    ensures
        lines_tokens(lines, k, allow_tabs) == lines_tokens(lines, n, allow_tabs),
    decreases k - n,
{
    if n < k {
        lemma_lines_failure(lines, n, k - 1, allow_tabs);
    }
}

} // verus!
